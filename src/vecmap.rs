//! A map kept as a list of pairs, looked up by a linear scan.
//!
//! Fast for the small maps where hashing would cost more than it saves.
use vstd::prelude::*;

verus! {

/// A key that can be compared with another by its view.
pub trait MapKey: View + Sized {
    fn same_key(&self, other: &Self) -> (r: bool)
        ensures
            r == (self@ == other@),
    ;
}

impl MapKey for String {
    fn same_key(&self, other: &Self) -> (r: bool) {
        *self == *other
    }
}

impl MapKey for u8 {
    fn same_key(&self, other: &Self) -> (r: bool) {
        *self == *other
    }
}

impl MapKey for usize {
    fn same_key(&self, other: &Self) -> (r: bool) {
        *self == *other
    }
}

/// Some entry has key `k`.
pub open spec fn has_key<K: View, V>(e: Seq<(K, V)>, k: K::V) -> bool {
    exists|i: int| 0 <= i < e.len() && (#[trigger] e[i]).0@ == k
}

/// Entry `i` is the first one with key `k`.
pub open spec fn is_first_index<K: View, V>(e: Seq<(K, V)>, k: K::V, i: int) -> bool {
    &&& 0 <= i < e.len()
    &&& e[i].0@ == k
    &&& forall|j: int| 0 <= j < i ==> (#[trigger] e[j]).0@ != k
}

/// The value of the first entry with key `k`.
pub open spec fn lookup<K: View, V>(e: Seq<(K, V)>, k: K::V) -> Option<V> {
    if has_key(e, k) {
        Some(e[choose|i: int| is_first_index(e, k, i)].1)
    } else {
        None
    }
}

/// The first entry with a key is the one that a lookup finds.
pub proof fn lemma_first_index<K: View, V>(e: Seq<(K, V)>, k: K::V, i: int)
    requires
        is_first_index(e, k, i),
    ensures
        has_key(e, k),
        lookup(e, k) == Some(e[i].1),
{
    assert(has_key(e, k));
    let c = choose|c: int| is_first_index(e, k, c);
    if c < i {
        assert(e[c].0@ != k);
    } else if i < c {
        assert(e[i].0@ != k);
    }
}

/// A list map: pairs of a key and a value. A key may appear twice; the first entry
/// wins.
#[derive(Debug, PartialEq, Eq)]
pub struct VecMap<K, V> {
    vec: Vec<(K, V)>,
}

impl<K, V> View for VecMap<K, V> {
    type V = Seq<(K, V)>;

    closed spec fn view(&self) -> Seq<(K, V)> {
        self.vec@
    }
}

impl<K, V> Default for VecMap<K, V> {
    fn default() -> (r: Self)
        ensures
            r@ == Seq::<(K, V)>::empty(),
    {
        VecMap { vec: Vec::new() }
    }
}

impl<K: MapKey, V> VecMap<K, V> {
    /// A map with the given entries, in order; repeated keys are kept as they are.
    pub fn from_slice(tuples: &[(K, V)]) -> (r: VecMap<K, V>)
        where
            K: Clone,
            V: Clone,
        ensures
            r@.len() == tuples@.len(),
            forall|i: int|
                0 <= i < tuples@.len() ==> cloned::<K>(tuples@[i].0, #[trigger] r@[i].0)
                    && cloned::<V>(tuples@[i].1, r@[i].1),
    {
        let mut vec: Vec<(K, V)> = Vec::new();
        let mut i: usize = 0;
        while i < tuples.len()
            invariant
                i <= tuples@.len(),
                vec@.len() == i,
                forall|j: int|
                    0 <= j < i ==> cloned::<K>(tuples@[j].0, #[trigger] vec@[j].0) && cloned::<V>(
                        tuples@[j].1,
                        vec@[j].1,
                    ),
            decreases tuples@.len() - i,
        {
            let k = tuples[i].0.clone();
            let v = tuples[i].1.clone();
            vec.push((k, v));
            i = i + 1;
        }
        VecMap { vec }
    }

    /// The value of the first entry with `key`.
    pub fn get(&self, key: &K) -> (r: Option<&V>)
        ensures
            r is None <==> !has_key(self@, key@),
            r matches Some(v) ==> lookup(self@, key@) == Some(*v),
            r matches Some(v) ==> exists|i: int| is_first_index(self@, key@, i) && *v == self@[i].1,
            lookup(self@, key@) matches Some(v) ==> r == Some(&v),
    {
        match self.position(key) {
            Some(i) => {
                proof {
                    lemma_first_index(self@, key@, i as int);
                }
                Some(&self.vec[i].1)
            },
            None => None,
        }
    }

    /// The index of the first entry with `key`.
    fn position(&self, key: &K) -> (r: Option<usize>)
        ensures
            r matches Some(i) ==> is_first_index(self@, key@, i as int),
            r is None <==> !has_key(self@, key@),
    {
        let mut i: usize = 0;
        while i < self.vec.len()
            invariant
                i <= self@.len(),
                forall|j: int| 0 <= j < i ==> (#[trigger] self@[j]).0@ != key@,
            decreases self@.len() - i,
        {
            if self.vec[i].0.same_key(key) {
                return Some(i);
            }
            i = i + 1;
        }
        None
    }

    /// Sets `key` to `value`: the first entry with `key` takes the value, or a new entry
    /// is added at the end.
    pub fn update(&mut self, key: K, value: V)
        ensures
            has_key(old(self)@, key@) ==> exists|i: int|
                is_first_index(old(self)@, key@, i) && final(self)@ == old(self)@.update(
                    i,
                    (old(self)@[i].0, value),
                ),
            !has_key(old(self)@, key@) ==> final(self)@ == old(self)@.push((key, value)),
    {
        match self.position(&key) {
            Some(i) => {
                let ghost e = self@;
                let (k, _) = self.vec.remove(i);
                self.vec.insert(i, (k, value));
                proof {
                    assert(self@ =~= e.update(i as int, (e[i as int].0, value)));
                }
            },
            None => self.vec.push((key, value)),
        }
    }

    /// Applies `func` to the value of the first entry with `key`; without one, adds an
    /// entry with `func` applied to `default`.
    pub fn update_with_fn(&mut self, key: K, default: &V, func: impl FnOnce(&V) -> V)
        requires
            forall|v: &V| func.requires((v,)),
        ensures
            has_key(old(self)@, key@) ==> exists|i: int, r: V|
                is_first_index(old(self)@, key@, i) && func.ensures((&old(self)@[i].1,), r)
                    && final(self)@ == old(self)@.update(i, (old(self)@[i].0, r)),
            !has_key(old(self)@, key@) ==> exists|r: V|
                func.ensures((default,), r) && final(self)@ == old(self)@.push((key, r)),
    {
        match self.position(&key) {
            Some(i) => {
                let ghost e = self@;
                let (k, v) = self.vec.remove(i);
                let r = func(&v);
                self.vec.insert(i, (k, r));
                proof {
                    assert(self@ =~= e.update(i as int, (e[i as int].0, r)));
                }
            },
            None => {
                let r = func(default);
                self.vec.push((key, r));
            },
        }
    }

    /// The keys, in order.
    pub fn keys(&self) -> (r: Vec<&K>)
        ensures
            r@.len() == self@.len(),
            forall|i: int| 0 <= i < r@.len() ==> *(#[trigger] r@[i]) == self@[i].0,
    {
        let mut r: Vec<&K> = Vec::new();
        let mut i: usize = 0;
        while i < self.vec.len()
            invariant
                i <= self@.len(),
                r@.len() == i,
                forall|j: int| 0 <= j < i ==> *(#[trigger] r@[j]) == self@[j].0,
            decreases self@.len() - i,
        {
            r.push(&self.vec[i].0);
            i = i + 1;
        }
        r
    }

    /// The values, in order.
    pub fn values(&self) -> (r: Vec<&V>)
        ensures
            r@.len() == self@.len(),
            forall|i: int| 0 <= i < r@.len() ==> *(#[trigger] r@[i]) == self@[i].1,
    {
        let mut r: Vec<&V> = Vec::new();
        let mut i: usize = 0;
        while i < self.vec.len()
            invariant
                i <= self@.len(),
                r@.len() == i,
                forall|j: int| 0 <= j < i ==> *(#[trigger] r@[j]) == self@[j].1,
            decreases self@.len() - i,
        {
            r.push(&self.vec[i].1);
            i = i + 1;
        }
        r
    }
}

} // verus!
