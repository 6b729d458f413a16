//! Stores of values found again by a number.
use vstd::prelude::*;
use std::collections::HashMap;

verus! {

/// A number under which a value is kept, or none.
pub type Id = Option<usize>;

/// Values kept in numbered slots, a freed slot being left empty.
pub struct DataManager<T> {
    data: Vec<Option<T>>,
    free: Vec<Id>,
    next_id: usize,
}

impl<T> DataManager<T> {
    /// The slots, by number.
    pub closed spec fn slots(&self) -> Seq<Option<T>> {
        self.data@
    }

    /// The numbers given back for reuse.
    pub closed spec fn free_ids(&self) -> Seq<Id> {
        self.free@
    }

    /// The number the next new slot gets.
    pub closed spec fn spec_next_id(&self) -> usize {
        self.next_id
    }

    /// A store with no slot.
    pub fn new() -> (r: Self)
        ensures
            r.slots() == Seq::<Option<T>>::empty(),
            r.free_ids() == Seq::<Id>::empty(),
            r.spec_next_id() == 0,
    {
        Self { data: Vec::new(), free: Vec::new(), next_id: 0 }
    }

    /// A store with no slot and room reserved for `capacity` of them.
    pub fn with_capacity(capacity: usize) -> (r: Self)
        ensures
            r.slots() == Seq::<Option<T>>::empty(),
            r.free_ids() == Seq::<Id>::empty(),
            r.spec_next_id() == 0,
    {
        Self { data: Vec::with_capacity(capacity), free: Vec::new(), next_id: 0 }
    }

    /// Takes the value out of slot `id`, leaving the slot empty; `None` when
    /// `id` names no slot or the slot is empty. `id` itself is left as it is.
    pub fn free(&mut self, id: &mut Id) -> (r: Option<T>)
        ensures
            *final(id) == *old(id),
            final(self).free_ids() == old(self).free_ids(),
            final(self).spec_next_id() == old(self).spec_next_id(),
            match *old(id) {
                Some(i) => if i < old(self).slots().len() {
                    &&& r == old(self).slots()[i as int]
                    &&& final(self).slots() == old(self).slots().update(i as int, None)
                } else {
                    &&& r is None
                    &&& final(self).slots() == old(self).slots()
                },
                None => {
                    &&& r is None
                    &&& final(self).slots() == old(self).slots()
                },
            },
    {
        match *id {
            Some(i) => {
                if self.data.len() <= i {
                    return None;
                }
                self.data.push(None);
                let taken = self.data.swap_remove(i);
                proof {
                    assert(self.data@ =~= old(self).data@.update(i as int, None));
                }
                taken
            },
            None => None,
        }
    }
}

/// A vector whose slots are also found through a map of keys.
pub struct HashVec<T> {
    data: Vec<Option<T>>,
    keys: HashMap<usize, usize>,
}

impl<T> HashVec<T> {
    /// The slots.
    pub closed spec fn slots(&self) -> Seq<Option<T>> {
        self.data@
    }

    /// The slot of each key.
    pub closed spec fn key_map(&self) -> Map<usize, usize> {
        self.keys@
    }

    pub fn new() -> (r: Self)
        ensures
            r.slots() == Seq::<Option<T>>::empty(),
            r.key_map() == Map::<usize, usize>::empty(),
    {
        Self { data: Vec::new(), keys: HashMap::new() }
    }

    /// Reserved for adding a value; it does nothing yet.
    pub fn push() {
    }
}

} // verus!
