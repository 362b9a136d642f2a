//! An ordered map keyed by strings, with distinct keys.

use vstd::prelude::*;

verus! {

/// The map that a sequence of distinct keys and a sequence of values
/// describe together: the key at position `i` maps to the value at `i`.
pub open spec fn map_of<W>(ks: Seq<Seq<char>>, vs: Seq<W>) -> Map<Seq<char>, W> {
    Map::new(|k: Seq<char>| ks.contains(k), |k: Seq<char>| vs[ks.index_of(k)])
}

/// In a sequence without duplicates, the position of the element at `i` is `i`.
pub proof fn lemma_index_of_distinct<A>(s: Seq<A>, i: int)
    requires
        s.no_duplicates(),
        0 <= i < s.len(),
    ensures
        s.contains(s[i]),
        s.index_of(s[i]) == i,
{
    assert(s.contains(s[i]));
    let j = s.index_of(s[i]);
    assert(0 <= j < s.len() && s[j] == s[i]);
}

/// Each key of a map built from distinct keys maps to the value at its position.
pub proof fn lemma_map_of_at<W>(ks: Seq<Seq<char>>, vs: Seq<W>, i: int)
    requires
        ks.no_duplicates(),
        0 <= i < ks.len(),
    ensures
        map_of(ks, vs).contains_key(ks[i]),
        map_of(ks, vs)[ks[i]] == vs[i],
{
    lemma_index_of_distinct(ks, i);
}

/// Appending a new key and its value inserts that pair into the map.
pub proof fn lemma_map_of_push<W>(ks: Seq<Seq<char>>, vs: Seq<W>, k: Seq<char>, v: W)
    requires
        ks.no_duplicates(),
        ks.len() == vs.len(),
        !ks.contains(k),
    ensures
        ks.push(k).no_duplicates(),
        map_of(ks.push(k), vs.push(v)) == map_of(ks, vs).insert(k, v),
{
    let ks2 = ks.push(k);
    let vs2 = vs.push(v);
    assert forall|i: int, j: int| 0 <= i < ks2.len() && 0 <= j < ks2.len() && i != j implies ks2[i]
        != ks2[j] by {
        if i < ks.len() && j < ks.len() {
        } else if i < ks.len() {
            assert(ks.contains(ks[i]));
        } else {
            assert(ks.contains(ks[j]));
        }
    }
    assert forall|x: Seq<char>| #[trigger] ks2.contains(x) implies map_of(ks2, vs2)[x] == map_of(
        ks,
        vs,
    ).insert(k, v)[x] by {
        let i = ks2.index_of(x);
        lemma_index_of_distinct(ks2, i);
        if x == k {
            lemma_index_of_distinct(ks2, ks.len() as int);
        } else {
            assert(i < ks.len());
            assert(ks.contains(x));
            lemma_index_of_distinct(ks, i);
        }
    }
    assert forall|x: Seq<char>| ks2.contains(x) <==> (ks.contains(x) || x == k) by {
        if ks2.contains(x) {
            let i = ks2.index_of(x);
            if i < ks.len() {
                assert(ks[i] == x);
            }
        }
        if ks.contains(x) {
            let i = ks.index_of(x);
            assert(ks2[i] == x);
        }
        if x == k {
            assert(ks2[ks.len() as int] == k);
        }
    }
    assert(map_of(ks2, vs2) =~= map_of(ks, vs).insert(k, v));
}

/// Replacing the value at a key's position replaces that key's value in the map.
pub proof fn lemma_map_of_update<W>(ks: Seq<Seq<char>>, vs: Seq<W>, i: int, v: W)
    requires
        ks.no_duplicates(),
        ks.len() == vs.len(),
        0 <= i < ks.len(),
    ensures
        map_of(ks, vs.update(i, v)) == map_of(ks, vs).insert(ks[i], v),
{
    assert forall|x: Seq<char>| #[trigger] ks.contains(x) implies map_of(ks, vs.update(i, v))[x]
        == map_of(ks, vs).insert(ks[i], v)[x] by {
        let j = ks.index_of(x);
        lemma_index_of_distinct(ks, j);
        lemma_index_of_distinct(ks, i);
    }
    assert(ks.contains(ks[i]));
    assert(map_of(ks, vs.update(i, v)) =~= map_of(ks, vs).insert(ks[i], v));
}

/// Putting a new key and its value in front inserts that pair into the map.
pub proof fn lemma_map_of_prepend<W>(ks: Seq<Seq<char>>, vs: Seq<W>, k: Seq<char>, v: W)
    requires
        ks.no_duplicates(),
        ks.len() == vs.len(),
        !ks.contains(k),
    ensures
        (seq![k] + ks).no_duplicates(),
        map_of(seq![k] + ks, seq![v] + vs) == map_of(ks, vs).insert(k, v),
{
    let ks2 = seq![k] + ks;
    let vs2 = seq![v] + vs;
    assert forall|i: int, j: int| 0 <= i < ks2.len() && 0 <= j < ks2.len() && i != j implies ks2[i]
        != ks2[j] by {
        if i > 0 && j > 0 {
            assert(ks2[i] == ks[i - 1]);
            assert(ks2[j] == ks[j - 1]);
        } else if i > 0 {
            assert(ks2[i] == ks[i - 1]);
            assert(ks.contains(ks[i - 1]));
        } else {
            assert(ks2[j] == ks[j - 1]);
            assert(ks.contains(ks[j - 1]));
        }
    }
    assert forall|x: Seq<char>| ks2.contains(x) <==> (ks.contains(x) || x == k) by {
        if ks2.contains(x) {
            let i = ks2.index_of(x);
            if i > 0 {
                assert(ks[i - 1] == x);
            }
        }
        if ks.contains(x) {
            let i = ks.index_of(x);
            assert(ks2[i + 1] == x);
        }
        if x == k {
            assert(ks2[0] == k);
        }
    }
    assert forall|x: Seq<char>| #[trigger] ks2.contains(x) implies map_of(ks2, vs2)[x] == map_of(
        ks,
        vs,
    ).insert(k, v)[x] by {
        let i = ks2.index_of(x);
        lemma_index_of_distinct(ks2, i);
        if x == k {
            lemma_index_of_distinct(ks2, 0);
        } else {
            assert(i > 0);
            assert(ks[i - 1] == x);
            lemma_index_of_distinct(ks, i - 1);
        }
    }
    assert(map_of(ks2, vs2) =~= map_of(ks, vs).insert(k, v));
}

/// A map from strings to values that keeps its keys distinct and in the
/// order in which they were first inserted.
pub struct StrMap<V> {
    keys: Vec<String>,
    vals: Vec<V>,
}

impl<V: DeepView> StrMap<V> {
    /// The keys, in order.
    pub closed spec fn key_seq(&self) -> Seq<Seq<char>> {
        self.keys.deep_view()
    }

    /// The values, in the order of their keys.
    pub closed spec fn val_seq(&self) -> Seq<V::V> {
        self.vals.deep_view()
    }

    /// Every key has one value, and no key occurs twice.
    pub open spec fn wf(&self) -> bool {
        &&& self.key_seq().len() == self.val_seq().len()
        &&& self.key_seq().no_duplicates()
    }

    /// The number of entries.
    pub open spec fn spec_len(&self) -> nat {
        self.key_seq().len()
    }

    /// An empty map.
    pub fn new() -> (r: Self)
        ensures
            r.wf(),
            r.key_seq() == Seq::<Seq<char>>::empty(),
            r.val_seq() == Seq::<V::V>::empty(),
            r@ == Map::<Seq<char>, V::V>::empty(),
    {
        let r = StrMap { keys: Vec::new(), vals: Vec::new() };
        assert(r.key_seq() =~= Seq::<Seq<char>>::empty());
        assert(r.val_seq() =~= Seq::<V::V>::empty());
        assert(r@ =~= Map::<Seq<char>, V::V>::empty());
        r
    }

    /// The number of entries.
    pub fn len(&self) -> (r: usize)
        requires
            self.wf(),
        ensures
            r == self.key_seq().len(),
    {
        self.keys.len()
    }

    /// The key at position `i`.
    pub fn key_at(&self, i: usize) -> (r: &String)
        requires
            self.wf(),
            i < self.key_seq().len(),
        ensures
            r@ == self.key_seq()[i as int],
    {
        &self.keys[i]
    }

    /// The value at position `i`.
    pub fn value_at(&self, i: usize) -> (r: &V)
        requires
            self.wf(),
            i < self.key_seq().len(),
        ensures
            r.deep_view() == self.val_seq()[i as int],
    {
        &self.vals[i]
    }

    /// The position of `key`, if it is a key of the map.
    pub fn find(&self, key: &str) -> (r: Option<usize>)
        requires
            self.wf(),
        ensures
            match r {
                Some(i) => i < self.key_seq().len() && self.key_seq()[i as int] == key@,
                None => !self.key_seq().contains(key@),
            },
    {
        let wanted = key.to_owned();
        let n = self.keys.len();
        let mut i: usize = 0;
        while i < n
            invariant
                n == self.keys@.len(),
                i <= n,
                wanted@ == key@,
                forall|j: int| 0 <= j < i ==> self.key_seq()[j] != key@,
            decreases n - i,
        {
            if self.keys[i] == wanted {
                return Some(i);
            }
            i = i + 1;
        }
        proof {
            if self.key_seq().contains(key@) {
                let j = self.key_seq().index_of(key@);
                assert(self.key_seq()[j] == key@);
            }
        }
        None
    }

    /// Whether `key` is a key of the map.
    pub fn contains_key(&self, key: &str) -> (r: bool)
        requires
            self.wf(),
        ensures
            r == self@.contains_key(key@),
    {
        match self.find(key) {
            Some(_) => true,
            None => false,
        }
    }

    /// The value of `key`, if it is a key of the map.
    pub fn get(&self, key: &str) -> (r: Option<&V>)
        requires
            self.wf(),
        ensures
            match r {
                Some(v) => self@.contains_key(key@) && v.deep_view() == self@[key@],
                None => !self@.contains_key(key@),
            },
    {
        match self.find(key) {
            Some(i) => {
                proof {
                    lemma_map_of_at(self.key_seq(), self.val_seq(), i as int);
                }
                Some(&self.vals[i])
            },
            None => None,
        }
    }

    /// Sets the value of `key`, in place where the key is already present,
    /// at the end where it is new.
    pub fn insert(&mut self, key: String, value: V)
        requires
            old(self).wf(),
        ensures
            final(self).wf(),
            final(self)@ == old(self)@.insert(key@, value.deep_view()),
            old(self).key_seq().contains(key@) ==> final(self).key_seq() == old(self).key_seq(),
            !old(self).key_seq().contains(key@) ==> final(self).key_seq() == old(
                self,
            ).key_seq().push(key@),
    {
        let ghost dv = value.deep_view();
        match self.find(key.as_str()) {
            Some(i) => {
                self.vals.set(i, value);
                proof {
                    assert(self.val_seq() =~= old(self).val_seq().update(i as int, dv));
                    assert(self.key_seq() =~= old(self).key_seq());
                    lemma_map_of_update(old(self).key_seq(), old(self).val_seq(), i as int, dv);
                }
            },
            None => {
                self.keys.push(key);
                self.vals.push(value);
                proof {
                    assert(self.key_seq() =~= old(self).key_seq().push(key@));
                    assert(self.val_seq() =~= old(self).val_seq().push(dv));
                    lemma_map_of_push(old(self).key_seq(), old(self).val_seq(), key@, dv);
                }
            },
        }
    }

    /// The values, in the order of their keys.
    pub fn into_values(self) -> (r: Vec<V>)
        requires
            self.wf(),
        ensures
            r.deep_view() == self.val_seq(),
    {
        self.vals
    }

    /// Inserts every entry of `other`, in its order; where both hold a key,
    /// the value of `other` wins.
    pub fn extend(&mut self, other: Self)
        requires
            old(self).wf(),
            other.wf(),
        ensures
            final(self).wf(),
            final(self)@ == old(self)@.union_prefer_right(other@),
    {
        let ghost ks = other.key_seq();
        let ghost vs = other.val_seq();
        let ghost start = self@;
        let StrMap { keys, vals } = other;
        let mut keys = keys;
        let mut vals = vals;
        let mut n = keys.len();
        proof {
            assert(keys.deep_view() =~= ks.take(n as int));
            assert(vals.deep_view() =~= vs.take(n as int));
            assert(ks.skip(n as int) =~= Seq::<Seq<char>>::empty());
            assert(map_of(ks.skip(n as int), vs.skip(n as int)) =~= Map::<Seq<char>, V::V>::empty());
            assert(start.union_prefer_right(Map::<Seq<char>, V::V>::empty()) =~= start);
        }
        while n > 0
            invariant
                ks.len() == vs.len(),
                ks.no_duplicates(),
                n <= ks.len(),
                keys@.len() == n,
                vals@.len() == n,
                keys.deep_view() == ks.take(n as int),
                vals.deep_view() == vs.take(n as int),
                self.wf(),
                self@ == start.union_prefer_right(map_of(ks.skip(n as int), vs.skip(n as int))),
            decreases n,
        {
            let k = keys.pop().unwrap();
            let v = vals.pop().unwrap();
            proof {
                assert(k@ == ks.take(n as int)[n - 1]);
                assert(v.deep_view() == vs.take(n as int)[n - 1]);
                lemma_map_of_prepend(ks.skip(n as int), vs.skip(n as int), k@, v.deep_view());
                assert(seq![k@] + ks.skip(n as int) =~= ks.skip(n - 1));
                assert(seq![v.deep_view()] + vs.skip(n as int) =~= vs.skip(n - 1));
                assert(!ks.skip(n as int).contains(k@)) by {
                    if ks.skip(n as int).contains(k@) {
                        let j = ks.skip(n as int).index_of(k@);
                        assert(ks[n + j] == ks[n - 1]);
                    }
                }
                assert forall|i: int, j: int|
                    0 <= i < ks.skip(n as int).len() && 0 <= j < ks.skip(n as int).len() && i != j
                        implies ks.skip(n as int)[i] != ks.skip(n as int)[j] by {
                    assert(ks.skip(n as int)[i] == ks[n + i]);
                    assert(ks.skip(n as int)[j] == ks[n + j]);
                }
            }
            self.insert(k, v);
            n = n - 1;
            proof {
                assert(keys.deep_view() =~= ks.take(n as int));
                assert(vals.deep_view() =~= vs.take(n as int));
                assert(self@ =~= start.union_prefer_right(map_of(ks.skip(n as int), vs.skip(n as int))));
            }
        }
        proof {
            assert(ks.skip(0) =~= ks);
            assert(vs.skip(0) =~= vs);
        }
    }
}

impl<T: DeepView> StrMap<Vec<T>> {
    /// Appends `item` to the list held under `key`.
    pub fn push_onto(&mut self, key: &str, item: T)
        requires
            old(self).wf(),
            old(self)@.contains_key(key@),
        ensures
            final(self).wf(),
            final(self).key_seq() == old(self).key_seq(),
            final(self)@ == old(self)@.insert(key@, old(self)@[key@].push(item.deep_view())),
    {
        let ghost dv = item.deep_view();
        let i = self.find(key).unwrap();
        proof {
            lemma_map_of_at(self.key_seq(), self.val_seq(), i as int);
        }
        let ghost before = self.vals@[i as int];
        self.vals[i].push(item);
        proof {
            assert(self.vals@[i as int].deep_view() =~= before.deep_view().push(dv));
            assert(self.val_seq() =~= old(self).val_seq().update(i as int, before.deep_view().push(dv)));
            assert(self.key_seq() =~= old(self).key_seq());
            lemma_map_of_update(old(self).key_seq(), old(self).val_seq(), i as int, before.deep_view().push(dv));
        }
    }
}

impl<V: DeepView> View for StrMap<V> {
    type V = Map<Seq<char>, V::V>;

    open spec fn view(&self) -> Map<Seq<char>, V::V> {
        map_of(self.key_seq(), self.val_seq())
    }
}

} // verus!
