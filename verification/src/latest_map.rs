use vstd::prelude::*;

use crate::keys::OrdKey;

verus! {

/// A map that answers "what is the value of the latest key not after this one".
/// Keys are kept in ascending order of their rank, each key at most once.
#[derive(Clone, Debug)]
pub struct LatestMap<Key, Value> {
    keys: Vec<Key>,
    values: Vec<Value>,
}

/// `x` is the greatest key of `m` that is not greater than `r`.
pub open spec fn is_latest<V>(m: Map<int, V>, r: int, x: int) -> bool {
    &&& m.dom().contains(x)
    &&& x <= r
    &&& forall|y: int| m.dom().contains(y) && y <= r ==> y <= x
}

/// `x` is the greatest key of `m`.
pub open spec fn is_last<V>(m: Map<int, V>, x: int) -> bool {
    &&& m.dom().contains(x)
    &&& forall|y: int| m.dom().contains(y) ==> y <= x
}

impl<Key: OrdKey, Value> LatestMap<Key, Value> {
    /// The stored keys are strictly ascending and each has its value.
    pub closed spec fn wf(&self) -> bool {
        &&& self.keys@.len() == self.values@.len()
        &&& forall|i: int, j: int|
            0 <= i < j < self.keys@.len() ==> #[trigger] self.keys@[i].rank()
                < #[trigger] self.keys@[j].rank()
    }

    pub closed spec fn has_rank(&self, r: int) -> bool {
        exists|i: int| 0 <= i < self.keys@.len() && #[trigger] self.keys@[i].rank() == r
    }

    pub closed spec fn index_of_rank(&self, r: int) -> int {
        choose|i: int| 0 <= i < self.keys@.len() && #[trigger] self.keys@[i].rank() == r
    }

    /// The map from the rank of each key to its value.
    pub closed spec fn view(&self) -> Map<int, Value> {
        Map::new(|r: int| self.has_rank(r), |r: int| self.values@[self.index_of_rank(r)])
    }

    proof fn lemma_view_at(&self, i: int)
        requires
            self.wf(),
            0 <= i < self.keys@.len(),
        ensures
            self.view().dom().contains(self.keys@[i].rank()),
            self.view()[self.keys@[i].rank()] == self.values@[i],
    {
        let r = self.keys@[i].rank();
        assert(self.has_rank(r));
        let j = self.index_of_rank(r);
        if j < i {
            assert(self.keys@[j].rank() < self.keys@[i].rank());
        } else if i < j {
            assert(self.keys@[i].rank() < self.keys@[j].rank());
        }
    }

    proof fn lemma_view_dom(&self, r: int)
        requires
            self.wf(),
        ensures
            self.view().dom().contains(r) <==> exists|i: int|
                0 <= i < self.keys@.len() && #[trigger] self.keys@[i].rank() == r,
    {
    }

    broadcast proof fn lemma_update_value(a: Self, b: Self, pos: int, x: Value)
        requires
            a.wf(),
            0 <= pos < a.keys@.len(),
            b.keys@ == a.keys@,
            b.values@ == a.values@.update(pos, x),
        ensures
            #![trigger b.view(), a.values@.update(pos, x)]
            b.wf(),
            b@ == a@.insert(a.keys@[pos].rank(), x),
    {
        a.lemma_view_at(pos);
        assert forall|y: int| #![auto] b@.dom().contains(y) <==> a@.insert(a.keys@[pos].rank(), x).dom().contains(y) by {
            if a@.dom().contains(y) {
                let i = choose|i: int| 0 <= i < a.keys@.len() && #[trigger] a.keys@[i].rank() == y;
                assert(b.keys@[i].rank() == y);
            }
            if b@.dom().contains(y) {
                let i = choose|i: int| 0 <= i < b.keys@.len() && #[trigger] b.keys@[i].rank() == y;
                assert(a.keys@[i].rank() == y);
            }
        }
        assert forall|y: int| #![auto] b@.dom().contains(y) implies b@[y] == a@.insert(a.keys@[pos].rank(), x)[y] by {
            let i = choose|i: int| 0 <= i < b.keys@.len() && #[trigger] b.keys@[i].rank() == y;
            b.lemma_view_at(i);
            a.lemma_view_at(i);
            if i != pos {
                assert(a.keys@[i].rank() != a.keys@[pos].rank()) by {
                    if i < pos { assert(a.keys@[i].rank() < a.keys@[pos].rank()); }
                    else { assert(a.keys@[pos].rank() < a.keys@[i].rank()); }
                }
            }
        }
        assert(b@ =~= a@.insert(a.keys@[pos].rank(), x));
    }

    /// An empty map.
    pub fn new() -> (m: Self)
        ensures
            m.wf(),
            m@ == Map::<int, Value>::empty(),
    {
        let m = LatestMap { keys: Vec::new(), values: Vec::new() };
        assert(m@ =~= Map::<int, Value>::empty());
        m
    }

    /// Position of the first stored key whose rank is not below `key`'s rank.
    fn lower_bound(&self, key: &Key) -> (pos: usize)
        requires
            self.wf(),
        ensures
            pos <= self.keys@.len(),
            forall|i: int| 0 <= i < pos ==> #[trigger] self.keys@[i].rank() < key.rank(),
            forall|i: int| pos <= i < self.keys@.len() ==> #[trigger] self.keys@[i].rank() >= key.rank(),
    {
        let mut lo: usize = 0;
        let mut hi: usize = self.keys.len();
        while lo < hi
            invariant
                self.wf(),
                lo <= hi <= self.keys@.len(),
                forall|i: int| 0 <= i < lo ==> #[trigger] self.keys@[i].rank() < key.rank(),
                forall|i: int| hi <= i < self.keys@.len() ==> #[trigger] self.keys@[i].rank() >= key.rank(),
            decreases hi - lo,
        {
            let mid = lo + (hi - lo) / 2;
            if self.keys[mid].key_lt(key) {
                assert forall|i: int| 0 <= i < mid + 1 implies #[trigger] self.keys@[i].rank() < key.rank() by {
                    if i < mid {
                        assert(self.keys@[i].rank() < self.keys@[mid as int].rank());
                    }
                }
                lo = mid + 1;
            } else {
                assert forall|i: int| mid <= i < self.keys@.len() implies #[trigger] self.keys@[i].rank() >= key.rank() by {
                    if mid < i {
                        assert(self.keys@[mid as int].rank() < self.keys@[i].rank());
                    }
                }
                hi = mid;
            }
        }
        lo
    }

    /// Sets the value of `key`, replacing any earlier value of the same key.
    pub fn insert(&mut self, key: Key, value: Value)
        requires
            old(self).wf(),
        ensures
            final(self).wf(),
            final(self)@ == old(self)@.insert(key.rank(), value),
    {
        let pos = self.lower_bound(&key);
        let ghost r = key.rank();
        let ghost old_keys = self.keys@;
        let ghost old_values = self.values@;
        let ghost old_view = self@;
        if pos < self.keys.len() && self.keys[pos].key_eq(&key) {
            self.values.set(pos, value);
            proof {
                assert forall|x: int| #![auto] self@.dom().contains(x) <==> old_view.insert(r, value).dom().contains(x) by {
                    self.lemma_view_dom(x);
                }
                assert forall|x: int| #![auto] self@.dom().contains(x) implies self@[x] == old_view.insert(r, value)[x] by {
                    let i = choose|i: int| 0 <= i < self.keys@.len() && #[trigger] self.keys@[i].rank() == x;
                    self.lemma_view_at(i);
                    if i != pos {
                        assert(old_keys[i] == self.keys@[i]);
                    }
                }
                assert(self@ =~= old_view.insert(r, value));
            }
        } else {
            self.keys.insert(pos, key);
            self.values.insert(pos, value);
            proof {
                let new_keys = self.keys@;
                assert forall|i: int, j: int| 0 <= i < j < new_keys.len() implies #[trigger] new_keys[i].rank()
                    < #[trigger] new_keys[j].rank() by {
                    if j < pos {
                        assert(new_keys[i] == old_keys[i] && new_keys[j] == old_keys[j]);
                    } else if j == pos {
                        assert(new_keys[i] == old_keys[i]);
                    } else if i < pos {
                        assert(new_keys[i] == old_keys[i] && new_keys[j] == old_keys[j - 1]);
                        if pos < old_keys.len() {
                            assert(old_keys[pos as int].rank() >= r);
                            if j - 1 > pos {
                                assert(old_keys[pos as int].rank() < old_keys[j - 1].rank());
                            }
                        }
                    } else if i == pos {
                        assert(new_keys[j] == old_keys[j - 1]);
                        assert(old_keys[pos as int].rank() >= r);
                        assert(old_keys[pos as int].rank() != r);
                        if j - 1 > pos {
                            assert(old_keys[pos as int].rank() < old_keys[j - 1].rank());
                        }
                    } else {
                        assert(new_keys[i] == old_keys[i - 1] && new_keys[j] == old_keys[j - 1]);
                    }
                }
                assert(self.wf());
                assert forall|x: int| #![auto] self@.dom().contains(x) <==> old_view.insert(r, value).dom().contains(x) by {
                    if self@.dom().contains(x) {
                        let i = choose|i: int| 0 <= i < self.keys@.len() && #[trigger] self.keys@[i].rank() == x;
                        if i < pos {
                            assert(old_keys[i] == new_keys[i]);
                            assert(old_view.dom().contains(x));
                        } else if i > pos {
                            assert(old_keys[i - 1] == new_keys[i]);
                            assert(old_view.dom().contains(x));
                        }
                    }
                    if x == r {
                        assert(new_keys[pos as int].rank() == r);
                    }
                    if old_view.dom().contains(x) {
                        let i = choose|i: int| 0 <= i < old_keys.len() && #[trigger] old_keys[i].rank() == x;
                        if i < pos {
                            assert(new_keys[i] == old_keys[i]);
                        } else {
                            assert(new_keys[i + 1] == old_keys[i]);
                        }
                        assert(self.keys@[if i < pos { i } else { i + 1 }].rank() == x);
                    }
                }
                assert forall|x: int| #![auto] self@.dom().contains(x) implies self@[x] == old_view.insert(r, value)[x] by {
                    let i = choose|i: int| 0 <= i < self.keys@.len() && #[trigger] self.keys@[i].rank() == x;
                    self.lemma_view_at(i);
                    if i < pos {
                        assert(old_keys[i] == new_keys[i]);
                        assert(x != r);
                        assert(old_values[i] == self.values@[i]);
                    } else if i > pos {
                        assert(old_keys[i - 1] == new_keys[i]);
                        assert(x != r);
                        assert(old_values[i - 1] == self.values@[i]);
                    }
                }
                assert(self@ =~= old_view.insert(r, value));
            }
        }
    }

    /// The value of the latest key that is not after `key`, if there is one.
    pub fn get_latest(&self, key: &Key) -> (res: Option<&Value>)
        requires
            self.wf(),
        ensures
            match res {
                Some(v) => exists|x: int| is_latest(self@, key.rank(), x) && *v == self@[x],
                None => forall|y: int| self@.dom().contains(y) ==> y > key.rank(),
            },
    {
        let pos = self.lower_bound(key);
        if pos < self.keys.len() && self.keys[pos].key_eq(key) {
            proof {
                self.lemma_view_at(pos as int);
                assert forall|y: int| self@.dom().contains(y) && y <= key.rank() implies y <= key.rank() by {}
                assert(is_latest(self@, key.rank(), key.rank()));
            }
            Some(&self.values[pos])
        } else if pos == 0 {
            proof {
                assert forall|y: int| self@.dom().contains(y) implies y > key.rank() by {
                    let i = choose|i: int| 0 <= i < self.keys@.len() && #[trigger] self.keys@[i].rank() == y;
                    if pos < self.keys@.len() {
                        assert(self.keys@[pos as int].rank() != key.rank());
                    }
                }
            }
            None
        } else {
            let idx = pos - 1;
            proof {
                self.lemma_view_at(idx as int);
                let x = self.keys@[idx as int].rank();
                assert forall|y: int| self@.dom().contains(y) && y <= key.rank() implies y <= x by {
                    let i = choose|i: int| 0 <= i < self.keys@.len() && #[trigger] self.keys@[i].rank() == y;
                    if i > idx {
                        if i == pos {
                            assert(self.keys@[pos as int].rank() != key.rank());
                        }
                    } else if i < idx {
                        assert(self.keys@[i].rank() < self.keys@[idx as int].rank());
                    }
                }
                assert(is_latest(self@, key.rank(), x));
            }
            Some(&self.values[idx])
        }
    }

    /// The value of the greatest key, if the map holds any.
    pub fn get_last(&self) -> (res: Option<&Value>)
        requires
            self.wf(),
        ensures
            match res {
                Some(v) => exists|x: int| is_last(self@, x) && *v == self@[x],
                None => self@.dom() == Set::<int>::empty(),
            },
    {
        match self.get_last_with_key() {
            Some((_, v)) => Some(v),
            None => None,
        }
    }

    /// The greatest key and its value, if the map holds any.
    pub fn get_last_with_key(&self) -> (res: Option<(&Key, &Value)>)
        requires
            self.wf(),
        ensures
            match res {
                Some((k, v)) => is_last(self@, k.rank()) && *v == self@[k.rank()],
                None => self@.dom() == Set::<int>::empty(),
            },
    {
        let n = self.keys.len();
        if n == 0 {
            assert(self@.dom() =~= Set::<int>::empty());
            None
        } else {
            let idx = n - 1;
            proof {
                self.lemma_view_at(idx as int);
                assert forall|y: int| self@.dom().contains(y) implies y <= self.keys@[idx as int].rank() by {
                    let i = choose|i: int| 0 <= i < self.keys@.len() && #[trigger] self.keys@[i].rank() == y;
                    if i < idx {
                        assert(self.keys@[i].rank() < self.keys@[idx as int].rank());
                    }
                }
            }
            Some((&self.keys[idx], &self.values[idx]))
        }
    }

    /// The value stored under exactly `key`.
    pub fn get(&self, key: &Key) -> (res: Option<&Value>)
        requires
            self.wf(),
        ensures
            match res {
                Some(v) => self@.dom().contains(key.rank()) && *v == self@[key.rank()],
                None => !self@.dom().contains(key.rank()),
            },
    {
        let pos = self.lower_bound(key);
        if pos < self.keys.len() && self.keys[pos].key_eq(key) {
            proof {
                self.lemma_view_at(pos as int);
            }
            Some(&self.values[pos])
        } else {
            proof {
                if self@.dom().contains(key.rank()) {
                    let i = choose|i: int| 0 <= i < self.keys@.len() && #[trigger] self.keys@[i].rank() == key.rank();
                    if i > pos {
                        assert(self.keys@[pos as int].rank() < self.keys@[i].rank());
                    }
                }
            }
            None
        }
    }

    /// A mutable reference to the value stored under exactly `key`.
    pub fn get_mut(&mut self, key: &Key) -> (res: Option<&mut Value>)
        requires
            old(self).wf(),
        ensures
            final(self).wf(),
            match res {
                Some(v) => {
                    &&& old(self)@.dom().contains(key.rank())
                    &&& *v == old(self)@[key.rank()]
                    &&& final(self)@ == old(self)@.insert(key.rank(), *final(v))
                },
                None => {
                    &&& !old(self)@.dom().contains(key.rank())
                    &&& final(self)@ == old(self)@
                },
            },
    {
        let pos = self.lower_bound(key);
        if pos < self.keys.len() && self.keys[pos].key_eq(key) {
            proof {
                self.lemma_view_at(pos as int);
            }
            broadcast use LatestMap::lemma_update_value;
            Some(&mut self.values[pos])
        } else {
            proof {
                if self@.dom().contains(key.rank()) {
                    let i = choose|i: int| 0 <= i < self.keys@.len() && #[trigger] self.keys@[i].rank() == key.rank();
                    if i > pos {
                        assert(self.keys@[pos as int].rank() < self.keys@[i].rank());
                    }
                }
            }
            None
        }
    }

    /// Whether exactly `key` is stored.
    pub fn contains_key(&self, key: &Key) -> (r: bool)
        requires
            self.wf(),
        ensures
            r == self@.dom().contains(key.rank()),
    {
        self.get(key).is_some()
    }
}

impl<Key: OrdKey, Value> Default for LatestMap<Key, Value> {
    fn default() -> (m: Self)
        ensures
            m.wf(),
            m@ == Map::<int, Value>::empty(),
    {
        LatestMap::new()
    }
}

} // verus!
