//! Items together with a list of indices into them.
use vstd::prelude::*;

verus! {

/// Items, and indices that refer to them by position.
#[derive(Debug)]
pub struct IndexedContainer<T> {
    pub items: Vec<T>,
    pub indices: Vec<u32>,
}

impl<T> IndexedContainer<T> {
    pub fn new() -> (r: Self)
        ensures
            r.items@ == Seq::<T>::empty(),
            r.indices@ == Seq::<u32>::empty(),
    {
        IndexedContainer { items: Vec::new(), indices: Vec::new() }
    }

    pub fn with_capacity(item_capacity: usize, index_capacity: usize) -> (r: Self)
        ensures
            r.items@ == Seq::<T>::empty(),
            r.indices@ == Seq::<u32>::empty(),
    {
        IndexedContainer { items: Vec::with_capacity(item_capacity), indices: Vec::with_capacity(index_capacity) }
    }

    /// Appends `item` and one index referring to it.
    pub fn push(&mut self, item: T)
        requires
            old(self).items@.len() <= u32::MAX,
        ensures
            final(self).items@ == old(self).items@.push(item),
            final(self).indices@ == old(self).indices@.push(old(self).items@.len() as u32),
    {
        let index = self.items.len() as u32;
        self.indices.push(index);
        self.items.push(item);
    }

    /// Appends `item` and `amount` indices referring to it.
    pub fn push_repeated(&mut self, item: T, amount: u32)
        requires
            old(self).items@.len() <= u32::MAX,
            old(self).indices@.len() + amount <= usize::MAX,
        ensures
            final(self).items@ == old(self).items@.push(item),
            final(self).indices@.len() == old(self).indices@.len() + amount,
            final(self).indices@.subrange(0, old(self).indices@.len() as int) == old(self).indices@,
            forall|k: int| old(self).indices@.len() <= k < final(self).indices@.len() ==> #[trigger] final(self).indices@[k]
                == old(self).items@.len() as u32,
    {
        let index = self.items.len() as u32;
        let ghost start = self.indices@;
        let mut n: u32 = 0;
        while n < amount
            invariant
                n <= amount,
                self.indices@.len() == start.len() + n,
                start.len() + amount <= usize::MAX,
                self.indices@.subrange(0, start.len() as int) == start,
                forall|k: int| start.len() <= k < self.indices@.len() ==> #[trigger] self.indices@[k] == index,
                self.items@ == old(self).items@,
                index == old(self).items@.len() as u32,
                start == old(self).indices@,
            decreases amount - n,
        {
            let ghost prev = self.indices@;
            self.indices.push(index);
            n = n + 1;
            assert(self.indices@.subrange(0, start.len() as int) =~= prev.subrange(0, start.len() as int));
        }
        self.items.push(item);
    }

    /// Appends `items`, and `relative_indices` shifted by the number of items already held.
    pub fn push_relative_indexed(&mut self, items: Vec<T>, relative_indices: Vec<u32>)
        requires
            old(self).items@.len() <= u32::MAX,
            forall|k: int| 0 <= k < relative_indices@.len() ==> #[trigger] relative_indices@[k] + old(self).items@.len() <= u32::MAX,
        ensures
            final(self).items@ == old(self).items@ + items@,
            final(self).indices@ == old(self).indices@ + relative_indices@.map_values(|i: u32| (i + old(self).items@.len()) as u32),
    {
        let offset = self.items.len() as u32;
        let ghost start = self.indices@;
        let mut k: usize = 0;
        while k < relative_indices.len()
            invariant
                k <= relative_indices@.len(),
                offset == old(self).items@.len(),
                self.items@ == old(self).items@,
                start == old(self).indices@,
                forall|j: int| 0 <= j < relative_indices@.len() ==> #[trigger] relative_indices@[j] + old(self).items@.len() <= u32::MAX,
                self.indices@ == start + relative_indices@.subrange(0, k as int).map_values(|i: u32| (i + offset) as u32),
            decreases relative_indices.len() - k,
        {
            self.indices.push(relative_indices[k] + offset);
            k = k + 1;
            assert(self.indices@ =~= start + relative_indices@.subrange(0, k as int).map_values(|i: u32| (i + offset) as u32));
        }
        assert(relative_indices@.subrange(0, k as int) =~= relative_indices@);
        let mut items = items;
        self.items.append(&mut items);
    }

    /// Appends another container, shifting its indices past the items already held.
    pub fn push_container(&mut self, other_container: Self)
        requires
            old(self).items@.len() <= u32::MAX,
            forall|k: int| 0 <= k < other_container.indices@.len() ==> #[trigger] other_container.indices@[k] + old(self).items@.len() <= u32::MAX,
        ensures
            final(self).items@ == old(self).items@ + other_container.items@,
            final(self).indices@ == old(self).indices@ + other_container.indices@.map_values(
                |i: u32| (i + old(self).items@.len()) as u32,
            ),
    {
        let IndexedContainer { items, indices } = other_container;
        self.push_relative_indexed(items, indices);
    }

    pub fn clear(&mut self)
        ensures
            final(self).items@ == Seq::<T>::empty(),
            final(self).indices@ == Seq::<u32>::empty(),
    {
        self.items.clear();
        self.indices.clear();
    }
}

} // verus!
