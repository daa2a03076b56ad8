//! Hybrid per-node child storage.
//!
//! A child list starts as a slice of one arena-wide shared pool and is
//! promoted to a privately owned list the first time an operation cannot be
//! expressed as an append at the pool's tail.  Promotion is one-way: a list
//! never reverts to pool mode.

use vstd::prelude::*;
use vstd::slice::slice_subrange;
use vstd::slice::slice_to_vec;

verus! {

/// Storage for one node's ordered children: either a `{ head, len }` slice
/// of the shared pool, or an owned list after promotion.
pub enum PoolOrVec<T> {
    Pool { head: usize, len: usize },
    Owned { vec: Vec<T> },
}

impl<T: Copy> PoolOrVec<T> {
    /// The elements the list holds, given the shared pool it may reference.
    pub open spec fn view_in(self, pool: Seq<T>) -> Seq<T> {
        match self {
            PoolOrVec::Pool { head, len } => pool.subrange(head as int, head + len),
            PoolOrVec::Owned { vec } => vec@,
        }
    }

    /// A pool-mode list must lie within the pool it references.
    pub open spec fn wf(self, pool: Seq<T>) -> bool {
        match self {
            PoolOrVec::Pool { head, len } => head + len <= pool.len(),
            PoolOrVec::Owned { .. } => true,
        }
    }

    /// True when the list's slice ends exactly at the pool's tail, so that
    /// an append can be served by pushing onto the pool.
    pub open spec fn at_pool_tail(self, pool: Seq<T>) -> bool {
        match self {
            PoolOrVec::Pool { head, len } => head + len == pool.len(),
            PoolOrVec::Owned { .. } => false,
        }
    }

    /// The pool is only ever grown by appending at its tail, and a list in
    /// pool mode lies wholly within the pool; so growing the pool never
    /// changes what any other list holds.
    pub proof fn lemma_pool_grow_preserves_view(self, pool: Seq<T>, item: T)
        requires
            self.wf(pool),
        ensures
            self.wf(pool.push(item)),
            self.view_in(pool.push(item)) == self.view_in(pool),
    {
        match self {
            PoolOrVec::Pool { head, len } => {
                assert(self.view_in(pool.push(item)) =~= self.view_in(pool));
            }
            PoolOrVec::Owned { .. } => {}
        }
    }

    /// A fresh, empty list in pool mode, claiming the pool's current tail.
    pub fn new(pool: &Vec<T>) -> (r: Self)
        ensures
            r == (PoolOrVec::<T>::Pool { head: pool@.len() as usize, len: 0 }),
            r.wf(pool@),
            r.view_in(pool@) == Seq::<T>::empty(),
            r.at_pool_tail(pool@),
    {
        let r = PoolOrVec::Pool { head: pool.len(), len: 0 };
        proof {
            assert(r.view_in(pool@) =~= Seq::<T>::empty());
        }
        r
    }

    /// The number of elements the list currently holds.
    pub fn len(&self, pool: &Vec<T>) -> (n: usize)
        requires
            self.wf(pool@),
        ensures
            n == self.view_in(pool@).len(),
    {
        match self {
            PoolOrVec::Pool { len, .. } => *len,
            PoolOrVec::Owned { vec } => vec.len(),
        }
    }

    /// The element at `idx`, or `None` past the end.
    pub fn get(&self, idx: usize, pool: &Vec<T>) -> (r: Option<T>)
        requires
            self.wf(pool@),
        ensures
            r == if idx < self.view_in(pool@).len() {
                Some(self.view_in(pool@)[idx as int])
            } else {
                None::<T>
            },
    {
        match self {
            PoolOrVec::Pool { head, len } => {
                if idx < *len {
                    let bound: usize = pool.len();
                    proof {
                        assert(*head + idx < bound);
                    }
                    Some(pool[*head + idx])
                } else {
                    None
                }
            }
            PoolOrVec::Owned { vec } => {
                if idx < vec.len() {
                    Some(vec[idx])
                } else {
                    None
                }
            }
        }
    }

    /// The current logical children in order, regardless of mode.
    pub fn as_slice<'a>(&'a self, pool: &'a Vec<T>) -> (r: &'a [T])
        requires
            self.wf(pool@),
        ensures
            r@ == self.view_in(pool@),
    {
        match self {
            PoolOrVec::Pool { head, len } => {
                let bound: usize = pool.len();
                proof {
                    assert(*head + *len <= bound);
                }
                slice_subrange(pool.as_slice(), *head, *head + *len)
            }
            PoolOrVec::Owned { vec } => vec.as_slice(),
        }
    }

    /// A copy of the elements in order.
    pub fn iter(&self, pool: &Vec<T>) -> (r: Vec<T>)
        requires
            self.wf(pool@),
        ensures
            r@ == self.view_in(pool@),
    {
        slice_to_vec(self.as_slice(pool))
    }

    /// Appends `item`.  When the list ends at the pool's tail the append is
    /// served by the pool itself; otherwise the list is promoted.
    pub fn push(&mut self, item: T, pool: &mut Vec<T>)
        requires
            old(self).wf(old(pool)@),
        ensures
            final(self).wf(final(pool)@),
            final(self).view_in(final(pool)@) == old(self).view_in(old(pool)@).push(item),
            old(self).at_pool_tail(old(pool)@) ==> {
                &&& final(pool)@ == old(pool)@.push(item)
                &&& *final(self) == (PoolOrVec::<T>::Pool {
                    head: old(self)->head,
                    len: (old(self)->len + 1) as usize,
                })
            },
            !old(self).at_pool_tail(old(pool)@) ==> {
                &&& final(pool)@ == old(pool)@
                &&& *final(self) is Owned
            },
    {
        let (in_pool, head, len): (bool, usize, usize) = match self {
            PoolOrVec::Pool { head, len } => (true, *head, *len),
            PoolOrVec::Owned { .. } => (false, 0, 0),
        };
        if in_pool {
            if pool.len() == head + len {
                pool.push(item);
                let n: usize = pool.len();
                *self = PoolOrVec::Pool { head, len: n - head };
                proof {
                    assert(self.view_in(pool@)
                        =~= old(self).view_in(old(pool)@).push(item));
                }
            } else {
                let mut vec = slice_to_vec(slice_subrange(pool.as_slice(), head, head + len));
                vec.push(item);
                *self = PoolOrVec::Owned { vec };
                proof {
                    assert(self.view_in(pool@)
                        =~= old(self).view_in(old(pool)@).push(item));
                }
            }
        } else {
            match self {
                PoolOrVec::Owned { vec } => {
                    vec.push(item);
                }
                PoolOrVec::Pool { .. } => {}
            }
        }
    }

    /// Inserts `item` at `index`.  Only an insert that is itself the
    /// pool-append case (`index == len` on a list at the pool's tail) stays
    /// in pool mode; any other insert promotes the list.
    pub fn insert(&mut self, index: usize, item: T, pool: &mut Vec<T>)
        requires
            old(self).wf(old(pool)@),
            index <= old(self).view_in(old(pool)@).len(),
        ensures
            final(self).wf(final(pool)@),
            final(self).view_in(final(pool)@)
                == old(self).view_in(old(pool)@).insert(index as int, item),
            (old(self).at_pool_tail(old(pool)@) && index == old(self)->len) ==> {
                &&& final(pool)@ == old(pool)@.push(item)
                &&& *final(self) == (PoolOrVec::<T>::Pool {
                    head: old(self)->head,
                    len: (old(self)->len + 1) as usize,
                })
            },
            !(old(self).at_pool_tail(old(pool)@) && index == old(self)->len) ==> {
                &&& final(pool)@ == old(pool)@
                &&& *final(self) is Owned
            },
    {
        let (in_pool, head, len): (bool, usize, usize) = match self {
            PoolOrVec::Pool { head, len } => (true, *head, *len),
            PoolOrVec::Owned { .. } => (false, 0, 0),
        };
        if in_pool && pool.len() == head + len && index == len {
            pool.push(item);
            let n: usize = pool.len();
            *self = PoolOrVec::Pool { head, len: n - head };
            proof {
                assert(self.view_in(pool@)
                    =~= old(self).view_in(old(pool)@).insert(index as int, item));
            }
        } else if in_pool {
            let mut vec = slice_to_vec(slice_subrange(pool.as_slice(), head, head + len));
            vec.insert(index, item);
            *self = PoolOrVec::Owned { vec };
            proof {
                assert(self.view_in(pool@)
                    =~= old(self).view_in(old(pool)@).insert(index as int, item));
            }
        } else {
            match self {
                PoolOrVec::Owned { vec } => {
                    vec.insert(index, item);
                }
                PoolOrVec::Pool { .. } => {}
            }
        }
    }

    /// Removes the element at `index`.  Removal cannot be expressed as a
    /// pool-tail append, so the list always ends up promoted.
    pub fn remove(&mut self, index: usize, pool: &Vec<T>)
        requires
            old(self).wf(pool@),
            index < old(self).view_in(pool@).len(),
        ensures
            *final(self) is Owned,
            final(self).wf(pool@),
            final(self).view_in(pool@) == old(self).view_in(pool@).remove(index as int),
    {
        let (in_pool, head, len): (bool, usize, usize) = match self {
            PoolOrVec::Pool { head, len } => (true, *head, *len),
            PoolOrVec::Owned { .. } => (false, 0, 0),
        };
        if in_pool {
            let bound: usize = pool.len();
            proof {
                assert(head + len <= bound);
            }
            let mut vec = slice_to_vec(slice_subrange(pool.as_slice(), head, head + len));
            vec.remove(index);
            *self = PoolOrVec::Owned { vec };
            proof {
                assert(self.view_in(pool@)
                    =~= old(self).view_in(pool@).remove(index as int));
            }
        } else {
            match self {
                PoolOrVec::Owned { vec } => {
                    vec.remove(index);
                }
                PoolOrVec::Pool { .. } => {}
            }
        }
    }
}

} // verus!
