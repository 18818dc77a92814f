use vstd::prelude::*;

use crate::keys::{EqKey, ExactCopy};

verus! {

/// A map that keeps every value inserted under a key, in insertion order.
/// Keys are kept in the order in which they were first inserted.
#[derive(Debug, PartialEq, Eq)]
pub struct MultiValueMap<Key: EqKey, Value> {
    keys: Vec<Key>,
    values: Vec<Vec<Value>>,
}

/// The pairs of `ks` and `vs` laid out key after key, each key with all of its values.
pub open spec fn flatten_pairs<KV, V>(ks: Seq<KV>, vs: Seq<Seq<V>>) -> Seq<(KV, V)>
    decreases ks.len(),
{
    if ks.len() == 0 || vs.len() == 0 {
        Seq::empty()
    } else {
        vs[0].map_values(|v: V| (ks[0], v)) + flatten_pairs(ks.drop_first(), vs.drop_first())
    }
}

impl<Key: EqKey, Value> MultiValueMap<Key, Value> {
    /// Every key is stored once, with at least one value.
    #[verifier::type_invariant]
    pub closed spec fn wf(&self) -> bool {
        &&& self.keys@.len() == self.values@.len()
        &&& forall|i: int, j: int|
            0 <= i < self.keys@.len() && 0 <= j < self.keys@.len() && i != j
                ==> #[trigger] self.keys@[i].key_view() != #[trigger] self.keys@[j].key_view()
        &&& forall|i: int| 0 <= i < self.values@.len() ==> #[trigger] self.values@[i]@.len() > 0
    }

    pub closed spec fn has_key(&self, k: Key::KeyView) -> bool {
        exists|i: int| 0 <= i < self.keys@.len() && #[trigger] self.keys@[i].key_view() == k
    }

    pub closed spec fn index_of_key(&self, k: Key::KeyView) -> int {
        choose|i: int| 0 <= i < self.keys@.len() && #[trigger] self.keys@[i].key_view() == k
    }

    /// The map from each key to all values inserted under it, oldest first.
    pub closed spec fn view(&self) -> Map<Key::KeyView, Seq<Value>> {
        Map::new(|k: Key::KeyView| self.has_key(k), |k: Key::KeyView| self.values@[self.index_of_key(k)]@)
    }

    /// The keys, in order of first insertion, taken by their views.
    pub closed spec fn key_order(&self) -> Seq<Key::KeyView> {
        self.keys@.map_values(|k: Key| k.key_view())
    }

    /// The values of each key, in the order of `key_order`.
    pub closed spec fn value_lists(&self) -> Seq<Seq<Value>> {
        self.values@.map_values(|v: Vec<Value>| v@)
    }

    proof fn lemma_view_at(&self, i: int)
        requires
            self.wf(),
            0 <= i < self.keys@.len(),
        ensures
            self.view().dom().contains(self.keys@[i].key_view()),
            self.view()[self.keys@[i].key_view()] == self.values@[i]@,
    {
        let k = self.keys@[i].key_view();
        assert(self.has_key(k));
        let j = self.index_of_key(k);
        assert(i == j);
    }

    /// The stored entries agree with the view: each key once, in order of first insertion,
    /// with the values of the view, and every key of the view has at least one value.
    pub open spec fn lists_agree(&self) -> bool {
        &&& self.key_order().len() == self.value_lists().len()
        &&& forall|i: int, j: int|
            0 <= i < j < self.key_order().len() ==> #[trigger] self.key_order()[i] != #[trigger] self.key_order()[j]
        &&& forall|i: int|
            0 <= i < self.key_order().len() ==> self@.dom().contains(#[trigger] self.key_order()[i]) && self@[self.key_order()[i]]
                == self.value_lists()[i]
        &&& forall|k: Key::KeyView| #[trigger] self@.dom().contains(k) ==> self.key_order().contains(k) && self@[k].len() > 0
    }

    proof fn lemma_lists_agree(&self)
        requires
            self.wf(),
        ensures
            self.lists_agree(),
    {
        assert forall|i: int| 0 <= i < self.key_order().len() implies self@.dom().contains(#[trigger] self.key_order()[i])
            && self@[self.key_order()[i]] == self.value_lists()[i] by {
            self.lemma_view_at(i);
        }
        assert forall|k: Key::KeyView| #[trigger] self@.dom().contains(k) implies self.key_order().contains(k)
            && self@[k].len() > 0 by {
            let i = self.index_of_key(k);
            assert(self.key_order()[i] == k);
            self.lemma_view_at(i);
        }
    }

    /// An empty map.
    pub fn new() -> (m: Self)
        ensures
            m.lists_agree(),
            m.wf(),
            m@ == Map::<Key::KeyView, Seq<Value>>::empty(),
            m.key_order() == Seq::<Key::KeyView>::empty(),
    {
        let m = MultiValueMap { keys: Vec::new(), values: Vec::new() };
        assert(m@ =~= Map::<Key::KeyView, Seq<Value>>::empty());
        assert(m.key_order() =~= Seq::<Key::KeyView>::empty());
        m
    }

    fn find(&self, key: &Key) -> (res: Option<usize>)
        requires
            self.wf(),
        ensures
            match res {
                Some(i) => i < self.keys@.len() && self.keys@[i as int].key_view() == key.key_view(),
                None => !self@.dom().contains(key.key_view()),
            },
    {
        let mut i: usize = 0;
        while i < self.keys.len()
            invariant
                self.wf(),
                i <= self.keys@.len(),
                forall|j: int| 0 <= j < i ==> #[trigger] self.keys@[j].key_view() != key.key_view(),
            decreases self.keys@.len() - i,
        {
            if self.keys[i].key_eq(key) {
                return Some(i);
            }
            i = i + 1;
        }
        None
    }

    /// Appends `value` to the values of `key`.
    pub fn insert(&mut self, key: Key, value: Value)
        ensures
            final(self).wf(),
            final(self)@ == old(self)@.insert(
                key.key_view(),
                if old(self)@.dom().contains(key.key_view()) {
                    old(self)@[key.key_view()].push(value)
                } else {
                    seq![value]
                },
            ),
            final(self).key_order() == if old(self)@.dom().contains(key.key_view()) {
                old(self).key_order()
            } else {
                old(self).key_order().push(key.key_view())
            },
            old(self).lists_agree(),
            final(self).lists_agree(),
    {
        proof {
            use_type_invariant(&*self);
            self.lemma_lists_agree();
        }
        let ghost old_view = self@;
        let ghost old_keys = self.keys@;
        let ghost old_values = self.values@;
        let ghost kv = key.key_view();
        let found = self.find(&key);
        proof {
            if let Some(i) = found {
                self.lemma_view_at(i as int);
            }
        }
        let mut tmp: MultiValueMap<Key, Value> = MultiValueMap::new();
        std::mem::swap(self, &mut tmp);
        let MultiValueMap { mut keys, mut values } = tmp;
        proof {
            assert(keys@ == old_keys);
            assert(values@ == old_values);
        }
        match found {
            Some(i) => {
                let mut inner: Vec<Value> = Vec::new();
                std::mem::swap(&mut values[i], &mut inner);
                inner.push(value);
                values.set(i, inner);
                proof {
                    assert forall|j: int| 0 <= j < values@.len() implies #[trigger] values@[j]@.len() > 0 by {
                        if j != i {
                            assert(values@[j] == old_values[j]);
                        }
                    }
                }
                *self = MultiValueMap { keys, values };
                proof {
                    assert(self.keys@ == old_keys);
                    let newv = old_view[kv].push(value);
                    assert forall|x: Key::KeyView| #![auto] self@.dom().contains(x) <==> old_view.insert(kv, newv).dom().contains(x) by {
                        if old_view.dom().contains(x) {
                            let j = choose|j: int| 0 <= j < old_keys.len() && #[trigger] old_keys[j].key_view() == x;
                            assert(self.keys@[j].key_view() == x);
                        }
                    }
                    assert forall|x: Key::KeyView| #![auto] self@.dom().contains(x) implies self@[x] == old_view.insert(kv, newv)[x] by {
                        let j = choose|j: int| 0 <= j < self.keys@.len() && #[trigger] self.keys@[j].key_view() == x;
                        self.lemma_view_at(j);
                        if j != i {
                            assert(self.values@[j] == old_values[j]);
                        }
                    }
                    assert(self@ =~= old_view.insert(kv, newv));
                    assert(self.key_order() =~= old_keys.map_values(|k: Key| k.key_view()));
                }
            },
            None => {
                let mut inner = Vec::new();
                inner.push(value);
                keys.push(key);
                values.push(inner);
                proof {
                    let n = old_keys.len();
                    assert forall|i: int, j: int|
                        0 <= i < keys@.len() && 0 <= j < keys@.len() && i != j
                            implies #[trigger] keys@[i].key_view() != #[trigger] keys@[j].key_view() by {
                        if i == n {
                            assert(keys@[j] == old_keys[j]);
                            assert(old_view.dom().contains(old_keys[j].key_view()));
                        } else if j == n {
                            assert(keys@[i] == old_keys[i]);
                            assert(old_view.dom().contains(old_keys[i].key_view()));
                        } else {
                            assert(keys@[i] == old_keys[i]);
                            assert(keys@[j] == old_keys[j]);
                        }
                    }
                    assert forall|j: int| 0 <= j < values@.len() implies #[trigger] values@[j]@.len() > 0 by {
                        if j < n {
                            assert(values@[j] == old_values[j]);
                        }
                    }
                }
                *self = MultiValueMap { keys, values };
                proof {
                    let n = old_keys.len();
                    assert forall|x: Key::KeyView| #![auto] self@.dom().contains(x) <==> old_view.insert(kv, seq![value]).dom().contains(x) by {
                        if old_view.dom().contains(x) {
                            let j = choose|j: int| 0 <= j < old_keys.len() && #[trigger] old_keys[j].key_view() == x;
                            assert(self.keys@[j].key_view() == x);
                        }
                        if x == kv {
                            assert(self.keys@[n as int].key_view() == x);
                        }
                        if self@.dom().contains(x) {
                            let j = choose|j: int| 0 <= j < self.keys@.len() && #[trigger] self.keys@[j].key_view() == x;
                            if j < n {
                                assert(old_keys[j] == self.keys@[j]);
                            }
                        }
                    }
                    assert forall|x: Key::KeyView| #![auto] self@.dom().contains(x) implies self@[x] == old_view.insert(kv, seq![value])[x] by {
                        let j = choose|j: int| 0 <= j < self.keys@.len() && #[trigger] self.keys@[j].key_view() == x;
                        self.lemma_view_at(j);
                        if j < n {
                            assert(self.values@[j] == old_values[j]);
                            assert(old_keys[j] == self.keys@[j]);
                        } else {
                            assert(self.values@[j]@ =~= seq![value]);
                        }
                    }
                    assert(self@ =~= old_view.insert(kv, seq![value]));
                    assert(self.key_order() =~= old_keys.map_values(|k: Key| k.key_view()).push(kv));
                }
            },
        }
        proof {
            use_type_invariant(&*self);
            self.lemma_lists_agree();
        }
    }

    /// After an insert, the key's values are its earlier ones followed by the new one, its
    /// first value is the earlier first one (or the new one for a new key), and every other
    /// key keeps its values.
    pub proof fn law_insert_values(before: Self, after: Self, k: Key::KeyView, v: Value)
        requires
            before.lists_agree(),
            after@ == before@.insert(
                k,
                if before@.dom().contains(k) {
                    before@[k].push(v)
                } else {
                    seq![v]
                },
            ),
        ensures
            after@.dom().contains(k),
            after@[k] == (if before@.dom().contains(k) {
                before@[k]
            } else {
                Seq::empty()
            }).push(v),
            after@[k][0] == if before@.dom().contains(k) {
                before@[k][0]
            } else {
                v
            },
            forall|j: Key::KeyView|
                j != k ==> (#[trigger] after@.dom().contains(j) == before@.dom().contains(j)) && (before@.dom().contains(j)
                    ==> after@[j] == before@[j]),
    {
        if !before@.dom().contains(k) {
            assert(Seq::<Value>::empty().push(v) =~= seq![v]);
        }
    }

    /// The first value inserted under `key`.
    pub fn get_one(&self, key: &Key) -> (res: Option<&Value>)
        ensures
            match res {
                Some(v) => self@.dom().contains(key.key_view()) && *v == self@[key.key_view()][0],
                None => !self@.dom().contains(key.key_view()),
            },
            self.lists_agree(),
    {
        proof {
            use_type_invariant(&self);
            self.lemma_lists_agree();
        }
        match self.find(key) {
            Some(i) => {
                proof {
                    self.lemma_view_at(i as int);
                }
                Some(&self.values[i][0])
            },
            None => None,
        }
    }

    /// All values inserted under `key`, oldest first; empty when the key is absent.
    pub fn get_all(&self, key: &Key) -> (res: Vec<&Value>)
        ensures
            self@.dom().contains(key.key_view()) ==> res@.len() == self@[key.key_view()].len()
                && forall|j: int| 0 <= j < res@.len() ==> *#[trigger] res@[j] == self@[key.key_view()][j],
            !self@.dom().contains(key.key_view()) ==> res@.len() == 0,
            self.lists_agree(),
    {
        proof {
            use_type_invariant(&self);
            self.lemma_lists_agree();
        }
        let mut res: Vec<&Value> = Vec::new();
        match self.find(key) {
            Some(i) => {
                proof {
                    self.lemma_view_at(i as int);
                }
                let inner = &self.values[i];
                let mut j: usize = 0;
                while j < inner.len()
                    invariant
                        j <= inner@.len(),
                        res@.len() == j,
                        forall|t: int| 0 <= t < j ==> *#[trigger] res@[t] == inner@[t],
                    decreases inner@.len() - j,
                {
                    res.push(&inner[j]);
                    j = j + 1;
                }
            },
            None => {},
        }
        res
    }

    /// Every key paired with each of its values: keys in order of first insertion,
    /// the values of a key in insertion order.
    pub fn get_flatten(self) -> (res: Vec<(Key, Value)>)
        ensures
            res@.map_values(|p: (Key, Value)| (p.0.key_view(), p.1)) == flatten_pairs(
                self.key_order(),
                self.value_lists(),
            ),
            self.lists_agree(),
    {
        proof {
            use_type_invariant(&self);
            self.lemma_lists_agree();
        }
        let ghost full = flatten_pairs(self.key_order(), self.value_lists());
        let mut keys = self.keys;
        let mut values = self.values;
        let mut res: Vec<(Key, Value)> = Vec::new();
        while keys.len() > 0
            invariant
                keys@.len() == values@.len(),
                res@.map_values(|p: (Key, Value)| (p.0.key_view(), p.1)) + flatten_pairs(
                    keys@.map_values(|k: Key| k.key_view()),
                    values@.map_values(|v: Vec<Value>| v@),
                ) == full,
            decreases keys@.len(),
        {
            let ghost ks = keys@.map_values(|k: Key| k.key_view());
            let ghost vs = values@.map_values(|v: Vec<Value>| v@);
            let k = keys.remove(0);
            let mut inner = values.remove(0);
            proof {
                assert(keys@.map_values(|k: Key| k.key_view()) =~= ks.drop_first());
                assert(values@.map_values(|v: Vec<Value>| v@) =~= vs.drop_first());
            }
            let ghost rest = flatten_pairs(ks.drop_first(), vs.drop_first());
            while inner.len() > 0
                invariant
                    res@.map_values(|p: (Key, Value)| (p.0.key_view(), p.1)) + inner@.map_values(
                        |v: Value| (k.key_view(), v),
                    ) + rest == full,
                decreases inner@.len(),
            {
                let ghost before = res@.map_values(|p: (Key, Value)| (p.0.key_view(), p.1));
                let ghost ins = inner@;
                let v = inner.remove(0);
                let kc = k.key_clone();
                res.push((kc, v));
                proof {
                    assert(res@.map_values(|p: (Key, Value)| (p.0.key_view(), p.1)) =~= before.push(
                        (k.key_view(), ins[0]),
                    ));
                    assert(ins.map_values(|v: Value| (k.key_view(), v)) =~= seq![(k.key_view(), ins[0])]
                        + inner@.map_values(|v: Value| (k.key_view(), v)));
                    assert(before + ins.map_values(|v: Value| (k.key_view(), v)) + rest =~= before.push(
                        (k.key_view(), ins[0]),
                    ) + inner@.map_values(|v: Value| (k.key_view(), v)) + rest);
                }
            }
            proof {
                assert(inner@.map_values(|v: Value| (k.key_view(), v)) =~= Seq::<(Key::KeyView, Value)>::empty());
                assert(res@.map_values(|p: (Key, Value)| (p.0.key_view(), p.1)) + Seq::<(Key::KeyView, Value)>::empty() =~= res@.map_values(|p: (Key, Value)| (p.0.key_view(), p.1)));
            }
        }
        proof {
            assert(res@.map_values(|p: (Key, Value)| (p.0.key_view(), p.1)) + Seq::<(Key::KeyView, Value)>::empty() =~= res@.map_values(|p: (Key, Value)| (p.0.key_view(), p.1)));
        }
        res
    }
}

/// The values paired with the key `k` in `ps`, in order.
pub open spec fn values_of_key<KV, V>(ps: Seq<(KV, V)>, k: KV) -> Seq<V>
    decreases ps.len(),
{
    if ps.len() == 0 {
        Seq::empty()
    } else if ps.last().0 == k {
        values_of_key(ps.drop_last(), k).push(ps.last().1)
    } else {
        values_of_key(ps.drop_last(), k)
    }
}

proof fn lemma_values_of_key_add<KV, V>(a: Seq<(KV, V)>, b: Seq<(KV, V)>, k: KV)
    ensures
        values_of_key(a + b, k) == values_of_key(a, k) + values_of_key(b, k),
    decreases b.len(),
{
    if b.len() == 0 {
        assert(a + b =~= a);
        assert(values_of_key(a, k) + Seq::<V>::empty() =~= values_of_key(a, k));
    } else {
        lemma_values_of_key_add(a, b.drop_last(), k);
        assert((a + b).drop_last() =~= a + b.drop_last());
        assert((a + b).last() == b.last());
        if b.last().0 == k {
            assert(values_of_key(a, k) + values_of_key(b.drop_last(), k).push(b.last().1) =~= (values_of_key(a, k)
                + values_of_key(b.drop_last(), k)).push(b.last().1));
        }
    }
}

proof fn lemma_values_of_one_key<KV, V>(vs: Seq<V>, k0: KV, k: KV)
    ensures
        values_of_key(vs.map_values(|v: V| (k0, v)), k) == if k0 == k {
            vs
        } else {
            Seq::empty()
        },
    decreases vs.len(),
{
    if vs.len() > 0 {
        lemma_values_of_one_key(vs.drop_last(), k0, k);
        assert(vs.map_values(|v: V| (k0, v)).drop_last() =~= vs.drop_last().map_values(|v: V| (k0, v)));
        if k0 == k {
            assert(vs.drop_last().push(vs.last()) =~= vs);
        }
    } else {
        assert(vs.map_values(|v: V| (k0, v)).len() == 0);
        if k0 == k {
            assert(vs =~= Seq::<V>::empty());
        }
    }
}

proof fn lemma_flatten_values<KV, V>(ks: Seq<KV>, vs: Seq<Seq<V>>, k: KV)
    requires
        ks.len() == vs.len(),
        forall|i: int, j: int| 0 <= i < j < ks.len() ==> #[trigger] ks[i] != #[trigger] ks[j],
    ensures
        forall|i: int| 0 <= i < ks.len() && ks[i] == k ==> values_of_key(flatten_pairs(ks, vs), k) == #[trigger] vs[i],
        !ks.contains(k) ==> values_of_key(flatten_pairs(ks, vs), k) == Seq::<V>::empty(),
        forall|j: int| 0 <= j < flatten_pairs(ks, vs).len() ==> ks.contains(#[trigger] flatten_pairs(ks, vs)[j].0),
    decreases ks.len(),
{
    if ks.len() == 0 {
        assert(flatten_pairs(ks, vs) =~= Seq::<(KV, V)>::empty());
    } else {
        let rest_k = ks.drop_first();
        let rest_v = vs.drop_first();
        lemma_flatten_values(rest_k, rest_v, k);
        let head = vs[0].map_values(|v: V| (ks[0], v));
        let tail = flatten_pairs(rest_k, rest_v);
        assert(flatten_pairs(ks, vs) == head + tail);
        lemma_values_of_key_add(head, tail, k);
        lemma_values_of_one_key(vs[0], ks[0], k);
        if ks[0] == k {
            assert(!rest_k.contains(k)) by {
                if rest_k.contains(k) {
                    let t = choose|t: int| 0 <= t < rest_k.len() && rest_k[t] == k;
                    assert(ks[t + 1] == k);
                }
            }
            assert(vs[0] + Seq::<V>::empty() =~= vs[0]);
            assert forall|i: int| 0 <= i < ks.len() && ks[i] == k implies values_of_key(flatten_pairs(ks, vs), k)
                == #[trigger] vs[i] by {
                if i > 0 {
                    assert(ks[0] == ks[i]);
                }
            }
        } else {
            assert(Seq::<V>::empty() + values_of_key(tail, k) =~= values_of_key(tail, k));
            assert forall|i: int| 0 <= i < ks.len() && ks[i] == k implies values_of_key(flatten_pairs(ks, vs), k)
                == #[trigger] vs[i] by {
                assert(rest_k[i - 1] == k);
                assert(rest_v[i - 1] == vs[i]);
            }
            if !ks.contains(k) {
                assert(!rest_k.contains(k)) by {
                    if rest_k.contains(k) {
                        let t = choose|t: int| 0 <= t < rest_k.len() && rest_k[t] == k;
                        assert(ks[t + 1] == k);
                    }
                }
            }
        }
        assert forall|j: int| 0 <= j < flatten_pairs(ks, vs).len() implies ks.contains(
            #[trigger] flatten_pairs(ks, vs)[j].0,
        ) by {
            if j < head.len() {
                assert(flatten_pairs(ks, vs)[j] == head[j]);
                assert(ks[0] == head[j].0);
            } else {
                assert(flatten_pairs(ks, vs)[j] == tail[j - head.len()]);
                let x = tail[j - head.len()].0;
                assert(rest_k.contains(x));
                let t = choose|t: int| 0 <= t < rest_k.len() && rest_k[t] == x;
                assert(ks[t + 1] == x);
            }
        }
    }
}

impl<Key: EqKey, Value> MultiValueMap<Key, Value> {
    /// Laid out as pairs, the map gives each key back its values, in insertion order (none
    /// for a key that it does not hold), and pairs only keys that it holds.
    pub proof fn law_flatten_values(m: Self, k: Key::KeyView)
        requires
            m.lists_agree(),
        ensures
            values_of_key(flatten_pairs(m.key_order(), m.value_lists()), k) == if m@.dom().contains(k) {
                m@[k]
            } else {
                Seq::<Value>::empty()
            },
            forall|j: int|
                0 <= j < flatten_pairs(m.key_order(), m.value_lists()).len() ==> m@.dom().contains(
                    #[trigger] flatten_pairs(m.key_order(), m.value_lists())[j].0,
                ),
    {
        let ks = m.key_order();
        let vs = m.value_lists();
        lemma_flatten_values(ks, vs, k);
        if m@.dom().contains(k) {
            let i = choose|i: int| 0 <= i < ks.len() && ks[i] == k;
            assert(vs[i] == m@[k]);
        }
        assert forall|j: int| 0 <= j < flatten_pairs(ks, vs).len() implies m@.dom().contains(
            #[trigger] flatten_pairs(ks, vs)[j].0,
        ) by {
            let x = flatten_pairs(ks, vs)[j].0;
            assert(ks.contains(x));
            let i = choose|i: int| 0 <= i < ks.len() && ks[i] == x;
        }
    }
}

/// Taking one more key onto the front part of the keys appends that key's pairs.
pub proof fn lemma_flatten_pairs_snoc<KV, V>(ks: Seq<KV>, vs: Seq<Seq<V>>, i: int)
    requires
        0 <= i < ks.len(),
        i < vs.len(),
    ensures
        flatten_pairs(ks.take(i + 1), vs.take(i + 1)) == flatten_pairs(ks.take(i), vs.take(i)) + vs[i].map_values(
            |v: V| (ks[i], v),
        ),
    decreases i,
{
    if i == 0 {
        assert(ks.take(1).drop_first() =~= Seq::<KV>::empty());
        assert(vs.take(1).drop_first() =~= Seq::<Seq<V>>::empty());
        assert(flatten_pairs(ks.take(0), vs.take(0)) =~= Seq::<(KV, V)>::empty());
        assert(flatten_pairs(Seq::<KV>::empty(), Seq::<Seq<V>>::empty()) =~= Seq::<(KV, V)>::empty());
        assert(vs.take(1)[0] == vs[0]);
        assert(ks.take(1)[0] == ks[0]);
        assert(flatten_pairs(ks.take(1), vs.take(1)) == vs[0].map_values(|v: V| (ks[0], v)) + flatten_pairs(
            ks.take(1).drop_first(),
            vs.take(1).drop_first(),
        ));
        assert(flatten_pairs(ks.take(1), vs.take(1)) =~= vs[0].map_values(|v: V| (ks[0], v)));
    } else {
        lemma_flatten_pairs_snoc(ks.drop_first(), vs.drop_first(), i - 1);
        assert(ks.take(i + 1).drop_first() =~= ks.drop_first().take(i));
        assert(vs.take(i + 1).drop_first() =~= vs.drop_first().take(i));
        assert(ks.take(i).drop_first() =~= ks.drop_first().take(i - 1));
        assert(vs.take(i).drop_first() =~= vs.drop_first().take(i - 1));
        assert(vs.drop_first()[i - 1] == vs[i]);
        assert(ks.drop_first()[i - 1] == ks[i]);
        assert(flatten_pairs(ks.take(i + 1), vs.take(i + 1)) =~= flatten_pairs(ks.take(i), vs.take(i)) + vs[i].map_values(
            |v: V| (ks[i], v),
        ));
    }
}

/// Only as many keys as there are value lists, and the reverse, count.
pub proof fn lemma_flatten_pairs_min<KV, V>(ks: Seq<KV>, vs: Seq<Seq<V>>)
    ensures
        flatten_pairs(ks, vs) == flatten_pairs(
            ks.take(if ks.len() <= vs.len() { ks.len() as int } else { vs.len() as int }),
            vs.take(if ks.len() <= vs.len() { ks.len() as int } else { vs.len() as int }),
        ),
    decreases ks.len(),
{
    let n = if ks.len() <= vs.len() { ks.len() as int } else { vs.len() as int };
    if n == 0 {
        assert(ks.take(0) =~= Seq::<KV>::empty());
        assert(vs.take(0) =~= Seq::<Seq<V>>::empty());
    } else {
        lemma_flatten_pairs_min(ks.drop_first(), vs.drop_first());
        assert(ks.take(n).drop_first() =~= ks.drop_first().take(n - 1));
        assert(vs.take(n).drop_first() =~= vs.drop_first().take(n - 1));
        assert(ks.take(n)[0] == ks[0]);
        assert(vs.take(n)[0] == vs[0]);
    }
}

impl<Key: EqKey, Value> MultiValueMap<Key, Value> {
    /// Every key paired with each of its values, by reference: keys in order of first
    /// insertion, the values of a key in insertion order.
    pub fn pairs(&self) -> (res: Vec<(&Key, &Value)>)
        ensures
            res@.map_values(|p: (&Key, &Value)| (p.0.key_view(), *p.1)) == flatten_pairs(
                self.key_order(),
                self.value_lists(),
            ),
            self.lists_agree(),
    {
        proof {
            use_type_invariant(&self);
            self.lemma_lists_agree();
        }
        let ghost ks = self.key_order();
        let ghost vs = self.value_lists();
        let mut res: Vec<(&Key, &Value)> = Vec::new();
        let n = if self.keys.len() <= self.values.len() { self.keys.len() } else { self.values.len() };
        let mut i: usize = 0;
        proof {
            assert(ks.skip(0) =~= ks);
            assert(vs.skip(0) =~= vs);
        }
        while i < n
            invariant
                ks == self.key_order(),
                vs == self.value_lists(),
                ks.len() == self.keys@.len(),
                vs.len() == self.values@.len(),
                n <= ks.len(),
                n <= vs.len(),
                i <= n,
                res@.map_values(|p: (&Key, &Value)| (p.0.key_view(), *p.1)) == flatten_pairs(ks.take(i as int), vs.take(i as int)),
            decreases self.keys@.len() - i,
        {
            let inner = &self.values[i];
            let ghost base = flatten_pairs(ks.take(i as int), vs.take(i as int));
            let mut j: usize = 0;
            while j < inner.len()
                invariant
                    ks == self.key_order(),
                    vs == self.value_lists(),
                    i < n,
                    n <= self.keys@.len(),
                    n <= self.values@.len(),
                    *inner == self.values@[i as int],
                    j <= inner@.len(),
                    res@.map_values(|p: (&Key, &Value)| (p.0.key_view(), *p.1)) == base + inner@.take(j as int).map_values(
                        |v: Value| (ks[i as int], v),
                    ),
                decreases inner@.len() - j,
            {
                let ghost before = res@.map_values(|p: (&Key, &Value)| (p.0.key_view(), *p.1));
                res.push((&self.keys[i], &inner[j]));
                proof {
                    assert(ks[i as int] == self.keys@[i as int].key_view());
                    assert(res@.map_values(|p: (&Key, &Value)| (p.0.key_view(), *p.1)) =~= before.push(
                        (ks[i as int], inner@[j as int]),
                    ));
                    assert(inner@.take(j + 1).map_values(|v: Value| (ks[i as int], v)) =~= inner@.take(j as int).map_values(
                        |v: Value| (ks[i as int], v),
                    ).push((ks[i as int], inner@[j as int])));
                }
                j = j + 1;
            }
            proof {
                assert(inner@.take(inner@.len() as int) =~= inner@);
                assert(vs[i as int] == inner@);
                lemma_flatten_pairs_snoc(ks, vs, i as int);
            }
            i = i + 1;
        }
        proof {
            lemma_flatten_pairs_min(ks, vs);
        }
        res
    }
}


impl<Key: EqKey, Value: Clone> Clone for MultiValueMap<Key, Value> {
    /// A map with the same keys, each with clones of its values.
    fn clone(&self) -> (r: Self)
        ensures
            r.key_order() == self.key_order(),
            forall|i: int| 0 <= i < r.value_lists().len() ==> (#[trigger] r.value_lists()[i]).len() == self.value_lists()[i].len(),
            r.value_lists().len() == self.value_lists().len(),
    {
        proof {
            use_type_invariant(self);
        }
        let mut keys: Vec<Key> = Vec::new();
        let mut values: Vec<Vec<Value>> = Vec::new();
        let mut i: usize = 0;
        while i < self.keys.len()
            invariant
                self.wf(),
                i <= self.keys@.len(),
                keys@.len() == i,
                values@.len() == i,
                forall|j: int| 0 <= j < i ==> (#[trigger] keys@[j]).key_view() == self.keys@[j].key_view(),
                forall|j: int| 0 <= j < i ==> (#[trigger] values@[j])@.len() == self.values@[j]@.len(),
            decreases self.keys@.len() - i,
        {
            keys.push(self.keys[i].key_clone());
            values.push(self.values[i].clone());
            i = i + 1;
        }
        let r = MultiValueMap { keys, values };
        proof {
            assert(r.key_order() =~= self.key_order());
        }
        r
    }
}

fn copy_values<Value: ExactCopy>(v: &Vec<Value>) -> (r: Vec<Value>)
    ensures
        r@ == v@,
{
    let mut r: Vec<Value> = Vec::new();
    let mut i: usize = 0;
    while i < v.len()
        invariant
            i <= v@.len(),
            r@ == v@.take(i as int),
        decreases v@.len() - i,
    {
        r.push(v[i].exact_copy());
        proof {
            assert(v@.take(i + 1) =~= v@.take(i as int).push(v@[i as int]));
        }
        i = i + 1;
    }
    proof {
        assert(v@.take(v@.len() as int) =~= v@);
    }
    r
}

impl<Key: EqKey, Value: ExactCopy> MultiValueMap<Key, Value> {
    /// An equal map: the same keys in the same order, each with the same values.
    pub fn copy(&self) -> (r: Self)
        ensures
            r@ == self@,
            r.key_order() == self.key_order(),
            r.value_lists() == self.value_lists(),
    {
        proof {
            use_type_invariant(self);
        }
        let mut keys: Vec<Key> = Vec::new();
        let mut values: Vec<Vec<Value>> = Vec::new();
        let mut i: usize = 0;
        while i < self.keys.len()
            invariant
                self.wf(),
                i <= self.keys@.len(),
                keys@.len() == i,
                values@.len() == i,
                forall|j: int| 0 <= j < i ==> (#[trigger] keys@[j]).key_view() == self.keys@[j].key_view(),
                forall|j: int| 0 <= j < i ==> (#[trigger] values@[j])@ == self.values@[j]@,
            decreases self.keys@.len() - i,
        {
            keys.push(self.keys[i].key_clone());
            values.push(copy_values(&self.values[i]));
            i = i + 1;
        }
        proof {
            assert forall|a: int, b: int|
                0 <= a < keys@.len() && 0 <= b < keys@.len() && a != b implies #[trigger] keys@[a].key_view()
                != #[trigger] keys@[b].key_view() by {
                assert(self.keys@[a].key_view() != self.keys@[b].key_view());
            }
            assert forall|a: int| 0 <= a < values@.len() implies #[trigger] values@[a]@.len() > 0 by {
                assert(self.values@[a]@.len() > 0);
            }
        }
        let r = MultiValueMap { keys, values };
        proof {
            assert(r.key_order() =~= self.key_order());
            assert(r.value_lists() =~= self.value_lists());
            assert forall|k: Key::KeyView| #[trigger] r.has_key(k) == self.has_key(k) by {
                if r.has_key(k) {
                    let a = choose|a: int| 0 <= a < r.keys@.len() && #[trigger] r.keys@[a].key_view() == k;
                    assert(self.keys@[a].key_view() == k);
                }
                if self.has_key(k) {
                    let a = choose|a: int| 0 <= a < self.keys@.len() && #[trigger] self.keys@[a].key_view() == k;
                    assert(r.keys@[a].key_view() == k);
                }
            }
            assert forall|k: Key::KeyView| r@.dom().contains(k) implies r@[k] == self@[k] by {
                let a = r.index_of_key(k);
                r.lemma_view_at(a);
                assert(self.keys@[a].key_view() == k);
                self.lemma_view_at(a);
            }
            assert(r@ =~= self@);
        }
        r
    }
}

impl<Key: EqKey, Value> Default for MultiValueMap<Key, Value> {
    fn default() -> (m: Self)
        ensures
            m.wf(),
            m@ == Map::<Key::KeyView, Seq<Value>>::empty(),
    {
        MultiValueMap::new()
    }
}

} // verus!
