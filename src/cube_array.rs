//! A three-dimensional array of equal width, height and depth, stored flat.
use vstd::prelude::*;

verus! {

/// A position in a cube array: x, y and z coordinates.
#[derive(Clone, Copy, Debug, PartialEq, Eq, Structural)]
pub struct GridPosition {
    pub x: i32,
    pub y: i32,
    pub z: i32,
}

/// The flat index of a position inside a cube of side `side`.
pub open spec fn flat_index(side: int, p: GridPosition) -> int {
    p.x + p.y * side + p.z * side * side
}

/// Whether every coordinate of `p` lies in `0..side`.
pub open spec fn in_cube(side: int, p: GridPosition) -> bool {
    0 <= p.x < side && 0 <= p.y < side && 0 <= p.z < side
}

/// A cube of `side * side * side` items, indexed by position.
#[derive(Debug)]
pub struct CubeArray<T> {
    side_length: i32,
    items: Vec<T>,
}

proof fn lemma_sizes(side: int)
    requires
        side > 0,
    ensures
        0 < side <= side * side <= side * side * side,
{
    assert(side <= side * side) by (nonlinear_arith) requires side > 0;
    assert(side * side <= side * side * side) by (nonlinear_arith) requires side > 0;
}

proof fn lemma_index_in_range(side: int, p: GridPosition)
    requires
        side > 0,
        in_cube(side, p),
    ensures
        0 <= flat_index(side, p) < side * side * side,
        0 <= p.y * side <= side * side,
        0 <= p.z * side <= side * side,
        0 <= p.z * side * side <= side * side * side,
        side * side <= side * side * side,
{
    lemma_sizes(side);
    assert(0 <= p.z * side <= side * side) by (nonlinear_arith)
        requires 0 <= p.z < side, side > 0;
    assert(0 <= p.y * side <= side * side) by (nonlinear_arith)
        requires 0 <= p.y < side, side > 0;
    assert(0 <= p.y * side <= (side - 1) * side) by (nonlinear_arith)
        requires 0 <= p.y < side, side > 0;
    assert(0 <= p.z * side * side <= (side - 1) * side * side) by (nonlinear_arith)
        requires 0 <= p.z < side, side > 0;
    assert((side - 1) + (side - 1) * side + (side - 1) * side * side == side * side * side - 1) by (nonlinear_arith);
}

impl<T> CubeArray<T> {
    /// The length of each side.
    pub closed spec fn side(&self) -> int {
        self.side_length as int
    }

    /// The items in flat order.
    pub closed spec fn items(&self) -> Seq<T> {
        self.items@
    }

    pub closed spec fn wf(&self) -> bool {
        &&& self.side_length > 0
        &&& self.side_length as int * self.side_length as int * self.side_length as int <= i32::MAX
        &&& self.items@.len() == self.side_length as int * self.side_length as int * self.side_length as int
    }

    /// The item at `p`.
    pub open spec fn at(&self, p: GridPosition) -> T {
        self.items()[flat_index(self.side(), p)]
    }

    /// A cube whose every item is a copy of `value`.
    pub fn cloned(side_length: i32, value: T) -> (r: Self)
        where
            T: Clone,
        requires
            side_length > 0,
            side_length as int * side_length as int * side_length as int <= i32::MAX,
        ensures
            r.wf(),
            r.side() == side_length,
            forall|k: int| 0 <= k < r.items().len() ==> cloned(value, #[trigger] r.items()[k]),
    {
        proof { lemma_sizes(side_length as int); }
        let n = (side_length * side_length * side_length) as usize;
        let mut items: Vec<T> = Vec::new();
        let mut k: usize = 0;
        while k < n
            invariant
                k <= n,
                items@.len() == k,
                forall|j: int| 0 <= j < k ==> cloned(value, #[trigger] items@[j]),
            decreases n - k,
        {
            items.push(value.clone());
            k = k + 1;
        }
        CubeArray { side_length, items }
    }

    /// A cube whose every item is `T::default()`.
    pub fn new(side_length: i32) -> (r: Self)
        where
            T: Default,
        requires
            side_length > 0,
            side_length as int * side_length as int * side_length as int <= i32::MAX,
        ensures
            r.wf(),
            r.side() == side_length,
    {
        proof { lemma_sizes(side_length as int); }
        let n = (side_length * side_length * side_length) as usize;
        let mut items: Vec<T> = Vec::new();
        let mut k: usize = 0;
        while k < n
            invariant
                k <= n,
                items@.len() == k,
            decreases n - k,
        {
            items.push(T::default());
            k = k + 1;
        }
        CubeArray { side_length, items }
    }

    /// The flat index of `position`, if it lies inside the cube.
    pub fn get_index(&self, position: GridPosition) -> (r: Option<usize>)
        requires
            self.wf(),
        ensures
            r is Some <==> in_cube(self.side(), position),
            r is Some ==> r->0 == flat_index(self.side(), position) && r->0 < self.items().len(),
    {
        let s = self.side_length;
        if position.x < 0 || position.x >= s || position.y < 0 || position.y >= s || position.z < 0 || position.z >= s {
            return None;
        }
        proof {
            lemma_index_in_range(s as int, position);
        }
        Some((position.x + position.y * s + position.z * s * s) as usize)
    }

    /// The position of a flat index, if it lies inside the cube.
    pub fn get_position(&self, index: usize) -> (r: Option<GridPosition>)
        requires
            self.wf(),
        ensures
            r is Some <==> index < self.items().len(),
            r is Some ==> in_cube(self.side(), r->0) && flat_index(self.side(), r->0) == index,
    {
        let s = self.side_length;
        if index >= self.items.len() {
            return None;
        }
        let i = index as i32;
        proof { lemma_sizes(s as int); }
        let p = GridPosition { x: i % s, y: i / s % s, z: i / (s * s) };
        proof {
            let si = s as int;
            let ii = i as int;
            assert(ii == ii % si + (ii / si % si) * si + (ii / (si * si)) * si * si
                && 0 <= ii / (si * si) < si) by (nonlinear_arith)
                requires si > 0, 0 <= ii < si * si * si;
        }
        Some(p)
    }

    /// The item at `position`, if it lies inside the cube.
    pub fn try_get(&self, position: GridPosition) -> (r: Option<&T>)
        requires
            self.wf(),
        ensures
            r is Some <==> in_cube(self.side(), position),
            r is Some ==> *r->0 == self.at(position),
    {
        match self.get_index(position) {
            Some(i) => Some(&self.items[i]),
            None => None,
        }
    }

    /// The item at `position`, which must lie inside the cube.
    pub fn get(&self, position: GridPosition) -> (r: &T)
        requires
            self.wf(),
            in_cube(self.side(), position),
        ensures
            *r == self.at(position),
    {
        proof { lemma_index_in_range(self.side(), position); }
        let s = self.side_length;
        &self.items[(position.x + position.y * s + position.z * s * s) as usize]
    }

    /// Replaces the item at `position`, which must lie inside the cube, and returns the old one.
    pub fn set(&mut self, position: GridPosition, value: T) -> (r: T)
        requires
            old(self).wf(),
            in_cube(old(self).side(), position),
        ensures
            final(self).wf(),
            final(self).side() == old(self).side(),
            r == old(self).at(position),
            final(self).items() == old(self).items().update(flat_index(old(self).side(), position), value),
    {
        proof { lemma_index_in_range(self.side(), position); }
        let s = self.side_length;
        let i = (position.x + position.y * s + position.z * s * s) as usize;
        let mut v = value;
        self.items.set_and_swap(i, &mut v);
        v
    }

    /// Replaces the item at `position` if it lies inside the cube, returning the old one.
    pub fn try_set(&mut self, position: GridPosition, value: T) -> (r: Option<T>)
        requires
            old(self).wf(),
        ensures
            final(self).wf(),
            r is Some <==> in_cube(old(self).side(), position),
            r is Some ==> r->0 == old(self).at(position)
                && final(self).items() == old(self).items().update(flat_index(old(self).side(), position), value),
            r is None ==> final(self).items() == old(self).items(),
    {
        match self.get_index(position) {
            Some(_) => Some(self.set(position, value)),
            None => None,
        }
    }
}

} // verus!
