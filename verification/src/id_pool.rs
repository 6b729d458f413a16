//! Recycling pool of `u32` identifiers.
use vstd::prelude::*;

verus! {

/// Hands out `u32` identifiers, reusing freed ones before fresh ones.
///
/// Freed ids are reused last-in, first-out; fresh ids count up from 0.
pub struct IdPool {
    next: u32,
    free: Vec<u32>,
}

impl IdPool {
    /// The next fresh id.
    pub closed spec fn next_id(&self) -> u32 {
        self.next
    }

    /// The freed ids waiting for reuse, the next one to be reused last.
    pub closed spec fn free_ids(&self) -> Seq<u32> {
        self.free@
    }

    /// `get_new_id` can return without running out of ids.
    pub open spec fn can_issue(&self) -> bool {
        self.free_ids().len() > 0 || self.next_id() < u32::MAX
    }

    pub fn new() -> (pool: Self)
        ensures
            pool.next_id() == 0,
            pool.free_ids() == Seq::<u32>::empty(),
    {
        Self { next: 0, free: Vec::new() }
    }

    /// Takes the most recently freed id, or else the next fresh one.
    pub fn get_new_id(&mut self) -> (id: u32)
        requires
            old(self).can_issue(),
        ensures
            old(self).free_ids().len() > 0 ==> {
                &&& id == old(self).free_ids().last()
                &&& final(self).free_ids() == old(self).free_ids().drop_last()
                &&& final(self).next_id() == old(self).next_id()
            },
            old(self).free_ids().len() == 0 ==> {
                &&& id == old(self).next_id()
                &&& final(self).free_ids() == old(self).free_ids()
                &&& final(self).next_id() == old(self).next_id() + 1
            },
            id == id_taken(old(self).next_id(), old(self).free_ids()),
            (final(self).next_id(), final(self).free_ids()) == state_after_take(
                old(self).next_id(),
                old(self).free_ids(),
            ),
    {
        match self.free.pop() {
            Some(id) => id,
            None => {
                let id = self.next;
                self.next = self.next + 1;
                id
            },
        }
    }

    /// Returns `id` to the pool.
    pub fn free_id(&mut self, id: u32)
        ensures
            final(self).free_ids() == old(self).free_ids().push(id),
            final(self).next_id() == old(self).next_id(),
    {
        self.free.push(id);
    }

    /// The next fresh id, without taking it.
    pub fn peek_next(&self) -> (r: u32)
        ensures
            r == self.next_id(),
    {
        self.next
    }

    pub fn free_ids_len(&self) -> (r: usize)
        ensures
            r == self.free_ids().len(),
    {
        self.free.len()
    }

    /// How many freed ids the pool can hold without reallocating.
    pub fn capacity(&self) -> (r: usize)
        ensures
            r >= self.free_ids().len(),
    {
        vec_capacity(&self.free)
    }
}

/// The id a pool with next fresh id `next` and freed ids `free` hands out.
pub open spec fn id_taken(next: u32, free: Seq<u32>) -> u32 {
    if free.len() > 0 {
        free.last()
    } else {
        next
    }
}

/// The next fresh id and the freed ids of such a pool once it handed one out.
pub open spec fn state_after_take(next: u32, free: Seq<u32>) -> (u32, Seq<u32>) {
    if free.len() > 0 {
        (next, free.drop_last())
    } else {
        ((next + 1) as u32, free)
    }
}

/// An id given back is the next one handed out, and the pool is then as it
/// was before the id came back.
pub proof fn lemma_free_then_take(next: u32, free: Seq<u32>, id: u32)
    ensures
        id_taken(next, free.push(id)) == id,
        state_after_take(next, free.push(id)) == (next, free),
{
    assert(free.push(id).drop_last() =~= free);
}

impl Default for IdPool {
    fn default() -> (pool: Self)
        ensures
            pool.next_id() == 0,
            pool.free_ids() == Seq::<u32>::empty(),
    {
        Self::new()
    }
}

/// Calls `Vec::capacity`; std documents that the capacity is never below the
/// length. The exact value depends on the allocator and is left unsaid.
#[verifier::external_body]
pub(crate) fn vec_capacity<T>(v: &Vec<T>) -> (r: usize)
    ensures
        r >= v@.len(),
{
    v.capacity()
}

/// Of ids that are all below the next fresh id and none of them waiting in the
/// pool, a new id is none, provided no freed id waits twice.
pub proof fn lemma_new_id_is_fresh(pool: IdPool, after: IdPool, id: u32, live: Set<u32>)
    requires
        pool.can_issue(),
        forall|x: u32| live.contains(x) ==> x < pool.next_id() && !pool.free_ids().contains(x),
        pool.free_ids().no_duplicates(),
        forall|k: int| 0 <= k < pool.free_ids().len() ==> pool.free_ids()[k] < pool.next_id(),
        pool.free_ids().len() > 0 ==> id == pool.free_ids().last() && after.free_ids()
            == pool.free_ids().drop_last() && after.next_id() == pool.next_id(),
        pool.free_ids().len() == 0 ==> id == pool.next_id() && after.free_ids()
            == pool.free_ids() && after.next_id() == pool.next_id() + 1,
    ensures
        !live.contains(id),
        !after.free_ids().contains(id),
        id < after.next_id(),
{
    if pool.free_ids().len() > 0 {
        let f = pool.free_ids();
        assert(f[f.len() - 1] == id);
        assert(f.contains(id));
        if after.free_ids().contains(id) {
            let k = choose|k: int| 0 <= k < after.free_ids().len() && after.free_ids()[k] == id;
            assert(f[k] == f[f.len() - 1]);
        }
    }
}

} // verus!
