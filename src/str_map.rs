use vstd::prelude::*;

verus! {

/// A small map keyed by strings, which keeps its keys in the order in which
/// they were first added.
#[derive(Clone, Debug)]
pub struct StrMap<T> {
    items: Vec<(String, T)>,
}

impl<T> View for StrMap<T> {
    type V = Map<Seq<char>, T>;

    closed spec fn view(&self) -> Map<Seq<char>, T> {
        Map::new(|k: Seq<char>| self.has(k), |k: Seq<char>| self.items@[self.index_of(k)].1)
    }
}

impl<T> StrMap<T> {
    spec fn has(&self, k: Seq<char>) -> bool {
        exists|i: int| 0 <= i < self.items@.len() && #[trigger] self.items@[i].0@ == k
    }

    spec fn index_of(&self, k: Seq<char>) -> int {
        choose|i: int| 0 <= i < self.items@.len() && #[trigger] self.items@[i].0@ == k
    }

    /// The keys, in the order in which they were added.
    pub closed spec fn keys(&self) -> Seq<Seq<char>> {
        Seq::new(self.items@.len(), |i: int| self.items@[i].0@)
    }

    /// No key occurs twice.
    pub closed spec fn wf(&self) -> bool {
        forall|i: int, j: int|
            0 <= i < j < self.items@.len() ==> #[trigger] self.items@[i].0@
                != #[trigger] self.items@[j].0@
    }

    proof fn lemma_index_of(&self, i: int)
        requires
            self.wf(),
            0 <= i < self.items@.len(),
        ensures
            self.has(self.items@[i].0@),
            self.index_of(self.items@[i].0@) == i,
    {
        let k = self.items@[i].0@;
        assert(self.items@[i].0@ == k);
        let j = self.index_of(k);
        assert(0 <= j < self.items@.len() && self.items@[j].0@ == k);
        if j < i {
            assert(self.items@[j].0@ != self.items@[i].0@);
        } else if i < j {
            assert(self.items@[i].0@ != self.items@[j].0@);
        }
    }

    pub fn new() -> (r: Self)
        ensures
            r.wf(),
            r@ == Map::<Seq<char>, T>::empty(),
            r.keys() == Seq::<Seq<char>>::empty(),
    {
        let r = StrMap { items: Vec::new() };
        assert(r@ =~= Map::<Seq<char>, T>::empty());
        assert(r.keys() =~= Seq::<Seq<char>>::empty());
        r
    }

    pub fn len(&self) -> (r: usize)
        ensures
            r == self.keys().len(),
    {
        self.items.len()
    }

    pub fn key_at(&self, i: usize) -> (r: &String)
        requires
            i < self.keys().len(),
        ensures
            r@ == self.keys()[i as int],
    {
        &self.items[i].0
    }

    pub fn value_at(&self, i: usize) -> (r: &T)
        requires
            self.wf(),
            i < self.keys().len(),
        ensures
            self@.contains_key(self.keys()[i as int]),
            *r == self@[self.keys()[i as int]],
    {
        proof {
            self.lemma_index_of(i as int);
        }
        &self.items[i].1
    }

    /// Looks a key up.
    pub fn get(&self, key: &String) -> (r: Option<&T>)
        requires
            self.wf(),
        ensures
            r.is_some() == self@.contains_key(key@),
            r.is_some() ==> *r.unwrap() == self@[key@],
    {
        let mut i: usize = 0;
        while i < self.items.len()
            invariant
                self.wf(),
                i <= self.items@.len(),
                forall|j: int| 0 <= j < i ==> #[trigger] self.items@[j].0@ != key@,
            decreases self.items@.len() - i,
        {
            if self.items[i].0 == *key {
                proof {
                    self.lemma_index_of(i as int);
                }
                return Some(&self.items[i].1);
            }
            i = i + 1;
        }
        None
    }

    /// Replaces the value at position `i`; keys and their order stay.
    pub fn set_at(&mut self, i: usize, value: T)
        requires
            old(self).wf(),
            i < old(self).keys().len(),
        ensures
            final(self).wf(),
            final(self).keys() == old(self).keys(),
            final(self)@ == old(self)@.insert(old(self).keys()[i as int], value),
    {
        let key = self.items[i].0.clone();
        self.items.set(i, (key, value));
        proof {
            let k0 = old(self).items@[i as int].0@;
            assert(self.keys() =~= old(self).keys());
            assert forall|k: Seq<char>| #[trigger] self@.contains_key(k) <==> old(self)@.insert(
                k0,
                value,
            ).contains_key(k) by {
                if self.has(k) {
                    let m = self.index_of(k);
                    assert(old(self).items@[m].0@ == k);
                }
                if old(self).has(k) {
                    let m = old(self).index_of(k);
                    assert(self.items@[m].0@ == k);
                }
                if k == k0 {
                    assert(self.items@[i as int].0@ == k);
                }
            }
            assert forall|k: Seq<char>| #[trigger] self@.contains_key(k) implies self@[k]
                == old(self)@.insert(k0, value)[k] by {
                let m = self.index_of(k);
                self.lemma_index_of(m);
                assert(old(self).items@[m].0@ == k);
                old(self).lemma_index_of(m);
                old(self).lemma_index_of(i as int);
            }
            assert(self@ =~= old(self)@.insert(k0, value));
        }
    }

    /// Adds a key with its value, unless the key is already there, in which
    /// case nothing changes.
    pub fn add(&mut self, key: String, value: T)
        requires
            old(self).wf(),
        ensures
            final(self).wf(),
            old(self)@.contains_key(key@) ==> final(self)@ == old(self)@ && final(self).keys()
                == old(self).keys(),
            !old(self)@.contains_key(key@) ==> final(self)@ == old(self)@.insert(key@, value)
                && final(self).keys() == old(self).keys().push(key@),
    {
        let found = self.get(&key).is_some();
        if !found {
            let ghost k = key@;
            self.items.push((key, value));
            proof {
                let n = old(self).items@.len() as int;
                assert(self.items@[n].0@ == k);
                assert(self.keys() =~= old(self).keys().push(k));
                assert forall|i: int, j: int|
                    0 <= i < j < self.items@.len() implies #[trigger] self.items@[i].0@
                    != #[trigger] self.items@[j].0@ by {
                    if j == n {
                        assert(old(self).items@[i].0@ == self.items@[i].0@);
                        if old(self).items@[i].0@ == k {
                            assert(old(self).has(k));
                        }
                    } else {
                        assert(old(self).items@[i] == self.items@[i]);
                        assert(old(self).items@[j] == self.items@[j]);
                    }
                }
                assert forall|q: Seq<char>| #[trigger] self@.contains_key(q) <==> old(self)@.insert(
                    k,
                    value,
                ).contains_key(q) by {
                    if self.has(q) {
                        let m = self.index_of(q);
                        if m < n {
                            assert(old(self).items@[m].0@ == q);
                        }
                    }
                    if old(self).has(q) {
                        let m = old(self).index_of(q);
                        assert(self.items@[m].0@ == q);
                    }
                }
                assert forall|q: Seq<char>| #[trigger] self@.contains_key(q) implies self@[q]
                    == old(self)@.insert(k, value)[q] by {
                    let m = self.index_of(q);
                    self.lemma_index_of(m);
                    if m < n {
                        assert(old(self).items@[m] == self.items@[m]);
                        old(self).lemma_index_of(m);
                    }
                }
                assert(self@ =~= old(self)@.insert(k, value));
            }
        }
    }

    /// Replaces the value of a key that is there and says whether it was;
    /// a key that is not there is not added.
    pub fn set(&mut self, key: &String, value: T) -> (found: bool)
        requires
            old(self).wf(),
        ensures
            final(self).wf(),
            final(self).keys() == old(self).keys(),
            found == old(self)@.contains_key(key@),
            found ==> final(self)@ == old(self)@.insert(key@, value),
            !found ==> final(self)@ == old(self)@,
    {
        let mut i: usize = 0;
        while i < self.items.len()
            invariant
                *self == *old(self),
                self.wf(),
                i <= self.items@.len(),
                forall|j: int| 0 <= j < i ==> #[trigger] self.items@[j].0@ != key@,
            decreases self.items@.len() - i,
        {
            if self.items[i].0 == *key {
                proof {
                    self.lemma_index_of(i as int);
                }
                self.set_at(i, value);
                return true;
            }
            i = i + 1;
        }
        false
    }
}

impl StrMap<bool> {
    /// Whether a key is there and set.
    pub open spec fn includes(&self, key: Seq<char>) -> bool {
        self@.contains_key(key) && self@[key]
    }

    /// Every key is set.
    pub open spec fn all_included(&self) -> bool {
        forall|k: Seq<char>| #[trigger] self@.contains_key(k) ==> self@[k]
    }

    pub fn is_included(&self, key: &String) -> (r: bool)
        requires
            self.wf(),
        ensures
            r == self.includes(key@),
    {
        match self.get(key) {
            Some(b) => *b,
            None => false,
        }
    }
}

} // verus!
