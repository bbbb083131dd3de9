//! A store whose entries keep their keys until they are removed.

use vstd::prelude::*;

verus! {

/// Values under keys that the store picks. A key that was removed can be picked again.
pub struct Slab<T> {
    items_: Vec<Option<T>>,
    free_: Vec<usize>,
}

impl<T> View for Slab<T> {
    type V = Map<usize, T>;

    closed spec fn view(&self) -> Map<usize, T> {
        Map::new(
            |key: usize| key < self.items_@.len() && self.items_@[key as int] is Some,
            |key: usize| self.items_@[key as int]->0,
        )
    }
}

impl<T> Slab<T> {
    /// The keys that can be picked again are those of the empty places, each once.
    pub closed spec fn wf(&self) -> bool {
        &&& self.free_@.no_duplicates()
        &&& forall|i: int|
            0 <= i < self.free_@.len() ==> (#[trigger] self.free_@[i]) < self.items_@.len()
                && self.items_@[self.free_@[i] as int] is None
        &&& forall|key: usize|
            key < self.items_@.len() && (#[trigger] self.items_@[key as int]) is None
                ==> self.free_@.contains(key)
    }

    pub fn new() -> (r: Self)
        ensures
            r.wf(),
            r@ == Map::<usize, T>::empty(),
    {
        let r = Slab { items_: Vec::new(), free_: Vec::new() };
        assert(r@ =~= Map::<usize, T>::empty());
        r
    }

    pub fn contains(&self, key: usize) -> (r: bool)
        ensures
            r == self@.contains_key(key),
    {
        key < self.items_.len() && self.items_[key].is_some()
    }

    pub fn get(&self, key: usize) -> (r: &T)
        requires
            self@.contains_key(key),
        ensures
            *r == self@[key],
    {
        match &self.items_[key] {
            Some(item) => item,
            None => vstd::pervasive::unreached(),
        }
    }

    pub fn get_mut(&mut self, key: usize) -> (r: &mut T)
        requires
            old(self).wf(),
            old(self)@.contains_key(key),
        ensures
            *r == old(self)@[key],
            final(self).wf(),
            final(self)@ == old(self)@.insert(key, *final(r)),
    {
        match &mut self.items_[key] {
            Some(item) => item,
            None => vstd::pervasive::unreached(),
        }
    }

    /// Stores `value` under a key that was not in use.
    pub fn insert(&mut self, value: T) -> (key: usize)
        requires
            old(self).wf(),
        ensures
            final(self).wf(),
            !old(self)@.contains_key(key),
            key < usize::MAX,
            final(self)@ == old(self)@.insert(key, value),
    {
        let ghost before = *self;
        match self.free_.pop() {
            Some(key) => {
                self.items_.set(key, Some(value));
                proof {
                    let n = before.free_@.len() - 1;
                    assert(before.free_@[n] == key);
                    assert(self.free_@ =~= before.free_@.drop_last());
                    assert forall|k: usize|
                        k < self.items_@.len() && (#[trigger] self.items_@[k as int])
                            is None implies self.free_@.contains(k) by {
                        assert(before.items_@[k as int] is None);
                        let i = choose|i: int|
                            0 <= i < before.free_@.len() && before.free_@[i] == k;
                        assert(self.free_@[i] == k);
                    }
                }
                key
            },
            None => {
                let key: usize = self.items_.len();
                self.items_.push(Some(value));
                assert(self.items_.len() == key + 1);
                key
            },
        }
    }

    /// Removes what is stored under `key`.
    pub fn remove(&mut self, key: usize) -> (r: T)
        requires
            old(self).wf(),
            old(self)@.contains_key(key),
        ensures
            final(self).wf(),
            r == old(self)@[key],
            final(self)@ == old(self)@.remove(key),
    {
        let ghost before = *self;
        let mut taken = None;
        std::mem::swap(&mut taken, &mut self.items_[key]);
        self.free_.push(key);
        proof {
            assert forall|k: usize|
                k < self.items_@.len() && (#[trigger] self.items_@[k as int])
                    is None implies self.free_@.contains(k) by {
                if k == key {
                    assert(self.free_@[before.free_@.len() as int] == k);
                } else {
                    assert(before.items_@[k as int] is None);
                    let i = choose|i: int| 0 <= i < before.free_@.len() && before.free_@[i] == k;
                    assert(self.free_@[i] == k);
                }
            }
        }
        taken.unwrap()
    }
}

} // verus!
