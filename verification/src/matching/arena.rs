use vstd::prelude::*;

verus! {

/// Index of a slot in an [`Arena`].
#[derive(Debug, Clone, Copy, PartialEq, Eq, Hash, Structural)]
pub struct NodeId(pub usize);

impl NodeId {
    /// The slot index.
    pub fn index(self) -> (r: usize)
        ensures
            r == self.0,
    {
        self.0
    }
}

/// Why an arena operation was refused.
#[derive(Debug, Clone, Copy, PartialEq, Eq, Structural)]
pub enum ArenaError {
    /// Every slot the capacity allows is live.
    Exhausted,
    /// The id does not name a live slot.
    InvalidNode,
}

/// A slot allocator with a fixed bound on the number of live values. Released slots
/// are kept on a free list and reused before the slot vector grows.
#[derive(Debug)]
pub struct Arena<T> {
    slots: Vec<Option<T>>,
    free: Vec<NodeId>,
    capacity: usize,
    live_count: usize,
}

impl<T> Arena<T> {
    /// The live values, by slot index.
    pub closed spec fn items(&self) -> Map<usize, T> {
        Map::new(
            |i: usize| i < self.slots@.len() && self.slots@[i as int] is Some,
            |i: usize| self.slots@[i as int]->Some_0,
        )
    }

    /// The most values that may be live at once.
    pub closed spec fn capacity_spec(&self) -> nat {
        self.capacity as nat
    }

    /// The number of live values.
    pub closed spec fn live(&self) -> nat {
        self.live_count as nat
    }

    /// The released slots waiting for reuse, the most recently released last.
    pub closed spec fn free_list(&self) -> Seq<usize> {
        self.free@.map_values(|id: NodeId| id.0)
    }

    /// The number of slots ever handed out; the next fresh slot has this index.
    pub closed spec fn slot_count(&self) -> nat {
        self.slots@.len()
    }

    /// The arena's internal consistency: the free list names exactly the empty slots,
    /// once each, and the live count is the number of occupied slots.
    pub closed spec fn wf(&self) -> bool {
        &&& self.live_count <= self.capacity
        &&& self.slots@.len() == self.live_count + self.free@.len()
        &&& forall|k: int|
            0 <= k < self.free@.len() ==> (#[trigger] self.free@[k]).0 < self.slots@.len()
                && self.slots@[self.free@[k].0 as int] is None
        &&& forall|k1: int, k2: int|
            0 <= k1 < self.free@.len() && 0 <= k2 < self.free@.len() && k1 != k2
                ==> #[trigger] self.free@[k1] != #[trigger] self.free@[k2]
        &&& self.items().dom().finite()
        &&& self.items().dom().len() == self.live_count
    }

    /// In a consistent arena the live count is the number of live values.
    pub proof fn lemma_live_counts_items(&self)
        requires
            self.wf(),
        ensures
            self.items().dom().finite(),
            self.live() == self.items().dom().len(),
            self.live() <= self.capacity_spec() <= usize::MAX,
    {
    }

    /// An empty arena that holds at most `capacity` live values.
    pub fn with_capacity(capacity: usize) -> (r: Self)
        ensures
            r.wf(),
            r.items() == Map::<usize, T>::empty(),
            r.capacity_spec() == capacity,
            r.live() == 0,
            r.free_list() == Seq::<usize>::empty(),
            r.slot_count() == 0,
    {
        let r = Arena { slots: Vec::new(), free: Vec::new(), capacity, live_count: 0 };
        assert(r.items() =~= Map::<usize, T>::empty());
        assert(r.free_list() =~= Seq::<usize>::empty());
        r
    }

    /// Stores `value` in a slot that was not live, or refuses when the arena is full.
    /// The most recently released slot is reused first; with none released, the next
    /// fresh slot is taken.
    pub fn allocate(&mut self, value: T) -> (r: Result<NodeId, ArenaError>)
        requires
            old(self).wf(),
        ensures
            final(self).wf(),
            final(self).capacity_spec() == old(self).capacity_spec(),
            old(self).live() >= old(self).capacity_spec() ==> r == Err::<NodeId, ArenaError>(
                ArenaError::Exhausted,
            ) && final(self).items() == old(self).items() && final(self).live() == old(self).live()
                && final(self).free_list() == old(self).free_list() && final(self).slot_count()
                == old(self).slot_count(),
            r is Err ==> *final(self) == *old(self),
            r matches Ok(id) ==> (old(self).free_list().len() > 0 ==> {
                &&& id.0 == old(self).free_list().last()
                &&& final(self).free_list() == old(self).free_list().drop_last()
                &&& final(self).slot_count() == old(self).slot_count()
            }),
            r matches Ok(id) ==> (old(self).free_list().len() == 0 ==> {
                &&& id.0 == old(self).slot_count()
                &&& final(self).free_list() == old(self).free_list()
                &&& final(self).slot_count() == old(self).slot_count() + 1
            }),
            old(self).live() < old(self).capacity_spec() ==> r is Ok,
            r matches Ok(id) ==> !old(self).items().contains_key(id.0) && final(self).items()
                == old(self).items().insert(id.0, value) && final(self).live() == old(self).live()
                + 1,
    {
        if self.live_count >= self.capacity {
            return Err(ArenaError::Exhausted);
        }
        let ghost old_items = self.items();
        let nfree = self.free.len();
        if nfree > 0 {
            let id = self.free[nfree - 1];
            proof {
                assert(self.free@[nfree - 1] == id);
            }
            self.slots.set(id.0, Some(value));
            self.free.pop();
            self.live_count = self.live_count + 1;
            proof {
                assert(self.free_list() =~= old(self).free_list().drop_last());
                assert(!old_items.contains_key(id.0));
                assert(self.items() =~= old_items.insert(id.0, value));
                assert forall|k: int| 0 <= k < self.free@.len() implies (#[trigger] self.free@[k]).0
                    < self.slots@.len() && self.slots@[self.free@[k].0 as int] is None by {
                    assert(self.free@[k] == old(self).free@[k]);
                    assert(old(self).free@[k] != old(self).free@[nfree - 1]);
                }
            }
            return Ok(id);
        }
        let id = NodeId(self.slots.len());
        self.slots.push(Some(value));
        self.live_count = self.live_count + 1;
        proof {
            assert(!old_items.contains_key(id.0));
            assert(self.items() =~= old_items.insert(id.0, value));
        }
        Ok(id)
    }

    /// The live value in slot `id`.
    pub fn get(&self, id: NodeId) -> (r: Result<&T, ArenaError>)
        ensures
            self.items().contains_key(id.0) ==> (r matches Ok(v) && *v == self.items()[id.0]),
            !self.items().contains_key(id.0) ==> r == Err::<&T, ArenaError>(ArenaError::InvalidNode),
    {
        if id.0 < self.slots.len() {
            match &self.slots[id.0] {
                Some(v) => Ok(v),
                None => Err(ArenaError::InvalidNode),
            }
        } else {
            Err(ArenaError::InvalidNode)
        }
    }

    /// Replaces the live value in slot `id`.
    pub fn set(&mut self, id: NodeId, value: T) -> (r: Result<(), ArenaError>)
        requires
            old(self).wf(),
        ensures
            final(self).wf(),
            final(self).capacity_spec() == old(self).capacity_spec(),
            final(self).live() == old(self).live(),
            final(self).free_list() == old(self).free_list(),
            final(self).slot_count() == old(self).slot_count(),
            old(self).items().contains_key(id.0) ==> r is Ok && final(self).items() == old(
                self,
            ).items().insert(id.0, value),
            !old(self).items().contains_key(id.0) ==> r == Err::<(), ArenaError>(
                ArenaError::InvalidNode,
            ) && final(self).items() == old(self).items(),
    {
        let ghost old_items = self.items();
        if id.0 < self.slots.len() {
            let occupied = match &self.slots[id.0] {
                Some(_) => true,
                None => false,
            };
            if occupied {
                self.slots.set(id.0, Some(value));
                proof {
                    assert(self.items() =~= old_items.insert(id.0, value));
                    assert(self.items().dom() =~= old_items.dom());
                }
                return Ok(());
            }
        }
        Err(ArenaError::InvalidNode)
    }

    /// The number of live values.
    pub fn live_count(&self) -> (r: usize)
        ensures
            r == self.live(),
    {
        self.live_count
    }

    /// Whether one more value can be stored.
    pub fn has_capacity(&self) -> (r: bool)
        ensures
            r == (self.live() < self.capacity_spec()),
    {
        self.live_count < self.capacity
    }

    /// Takes the live value out of slot `id` and puts the slot on the free list, where
    /// the next allocation takes it.
    pub fn release(&mut self, id: NodeId) -> (r: Result<T, ArenaError>)
        requires
            old(self).wf(),
        ensures
            final(self).wf(),
            final(self).capacity_spec() == old(self).capacity_spec(),
            final(self).slot_count() == old(self).slot_count(),
            r is Ok ==> final(self).free_list() == old(self).free_list().push(id.0),
            r is Err ==> final(self).free_list() == old(self).free_list(),
            old(self).items().contains_key(id.0) ==> (r matches Ok(v) && v == old(self).items()[id.0]),
            old(self).items().contains_key(id.0) ==> final(self).items() == old(self).items().remove(id.0),
            old(self).items().contains_key(id.0) ==> final(self).live() == old(self).live() - 1,
            !old(self).items().contains_key(id.0) ==> r == Err::<T, ArenaError>(
                ArenaError::InvalidNode,
            ) && final(self).items() == old(self).items() && final(self).live() == old(self).live(),
    {
        let ghost old_items = self.items();
        if self.live_count == 0 {
            proof {
                if old_items.contains_key(id.0) {
                    vstd::set::axiom_set_contains_len(old_items.dom(), id.0);
                }
            }
            return Err(ArenaError::InvalidNode);
        }
        if id.0 >= self.slots.len() {
            return Err(ArenaError::InvalidNode);
        }
        let taken = self.slots[id.0].take();
        match taken {
            Some(value) => {
                proof {
                    assert(self.items() =~= old_items.remove(id.0));
                    assert forall|k: int| 0 <= k < old(self).free@.len() implies #[trigger] old(
                        self,
                    ).free@[k] != id by {
                        assert(old(self).slots@[old(self).free@[k].0 as int] is None);
                    }
                }
                self.live_count = self.live_count - 1;
                self.free.push(id);
                proof {
                    assert(self.free_list() =~= old(self).free_list().push(id.0));
                    assert forall|k: int| 0 <= k < self.free@.len() implies (#[trigger] self.free@[k]).0
                        < self.slots@.len() && self.slots@[self.free@[k].0 as int] is None by {
                        if k < old(self).free@.len() {
                            assert(self.free@[k] == old(self).free@[k]);
                        }
                    }
                    assert forall|k1: int, k2: int|
                        0 <= k1 < self.free@.len() && 0 <= k2 < self.free@.len() && k1 != k2
                        implies #[trigger] self.free@[k1] != #[trigger] self.free@[k2] by {
                        if k1 < old(self).free@.len() && k2 < old(self).free@.len() {
                            assert(self.free@[k1] == old(self).free@[k1]);
                            assert(self.free@[k2] == old(self).free@[k2]);
                        } else if k1 < old(self).free@.len() {
                            assert(self.free@[k1] == old(self).free@[k1]);
                        } else {
                            assert(self.free@[k2] == old(self).free@[k2]);
                        }
                    }
                }
                Ok(value)
            },
            None => {
                proof {
                    assert(self.slots@ =~= old(self).slots@);
                }
                Err(ArenaError::InvalidNode)
            },
        }
    }
}

} // verus!
