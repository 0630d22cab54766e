//! Signs, axes, directions and maps over the six directions.
use vstd::prelude::*;

verus! {

/// Positive or negative; zero is not included.
#[derive(Clone, Copy, Debug, PartialEq, Eq, Structural, Default)]
pub enum Sign {
    #[default]
    Positive,
    Negative,
}

impl Sign {
    pub fn is_positive(self) -> (r: bool)
        ensures
            r == (self == Sign::Positive),
    {
        self == Sign::Positive
    }

    pub fn is_negative(self) -> (r: bool)
        ensures
            r == (self == Sign::Negative),
    {
        self == Sign::Negative
    }

    /// The opposite sign.
    pub fn neg(self) -> (r: Sign)
        ensures
            r != self,
    {
        match self {
            Sign::Positive => Sign::Negative,
            Sign::Negative => Sign::Positive,
        }
    }
}

/// One of the three spatial axes.
#[derive(Clone, Copy, Debug, PartialEq, Eq, Structural, Default)]
pub enum Axis {
    #[default]
    X,
    Y,
    Z,
}

/// An axis together with a sign: one of six directions.
#[derive(Clone, Copy, Debug, PartialEq, Eq, Structural)]
pub struct Direction {
    pub axis: Axis,
    pub sign: Sign,
}

/// Maps each of the six directions to a value.
#[derive(Clone, Copy, Debug)]
pub struct DirectionMap<T> {
    pub pos_x: T,
    pub neg_x: T,
    pub pos_y: T,
    pub neg_y: T,
    pub pos_z: T,
    pub neg_z: T,
}

impl<T> DirectionMap<T> {
    /// The value mapped to `d`.
    pub open spec fn at(&self, d: Direction) -> T {
        match (d.sign, d.axis) {
            (Sign::Positive, Axis::X) => self.pos_x,
            (Sign::Positive, Axis::Y) => self.pos_y,
            (Sign::Positive, Axis::Z) => self.pos_z,
            (Sign::Negative, Axis::X) => self.neg_x,
            (Sign::Negative, Axis::Y) => self.neg_y,
            (Sign::Negative, Axis::Z) => self.neg_z,
        }
    }

    /// All six directions mapped to copies of one value.
    pub fn uniform(value: &T) -> (r: Self)
        where
            T: Clone,
        ensures
            forall|d: Direction| cloned(*value, #[trigger] r.at(d)),
    {
        let r = DirectionMap {
            pos_x: value.clone(),
            neg_x: value.clone(),
            pos_y: value.clone(),
            neg_y: value.clone(),
            pos_z: value.clone(),
            neg_z: value.clone(),
        };
        assert forall|d: Direction| cloned(*value, #[trigger] r.at(d)) by {
            match (d.sign, d.axis) {
                (Sign::Positive, Axis::X) => {},
                (Sign::Positive, Axis::Y) => {},
                (Sign::Positive, Axis::Z) => {},
                (Sign::Negative, Axis::X) => {},
                (Sign::Negative, Axis::Y) => {},
                (Sign::Negative, Axis::Z) => {},
            }
        }
        r
    }

    /// `top` on +Y, `bottom` on -Y, and `sides` on the four X and Z directions.
    pub fn top_sides_bottom(top: &T, sides: &T, bottom: &T) -> (r: Self)
        where
            T: Clone,
        ensures
            cloned(*top, r.pos_y),
            cloned(*bottom, r.neg_y),
            cloned(*sides, r.pos_x),
            cloned(*sides, r.neg_x),
            cloned(*sides, r.pos_z),
            cloned(*sides, r.neg_z),
    {
        DirectionMap {
            pos_x: sides.clone(),
            neg_x: sides.clone(),
            pos_y: top.clone(),
            neg_y: bottom.clone(),
            pos_z: sides.clone(),
            neg_z: sides.clone(),
        }
    }

    /// The value mapped to `direction`.
    pub fn get(&self, direction: Direction) -> (r: &T)
        ensures
            *r == self.at(direction),
    {
        match direction.sign {
            Sign::Positive => match direction.axis {
                Axis::X => &self.pos_x,
                Axis::Y => &self.pos_y,
                Axis::Z => &self.pos_z,
            },
            Sign::Negative => match direction.axis {
                Axis::X => &self.neg_x,
                Axis::Y => &self.neg_y,
                Axis::Z => &self.neg_z,
            },
        }
    }

    /// Maps `direction` to `value`, returning the value it replaces.
    pub fn set(&mut self, direction: Direction, value: T) -> (r: T)
        ensures
            r == old(self).at(direction),
            final(self).at(direction) == value,
            forall|d: Direction| d != direction ==> #[trigger] final(self).at(d) == old(self).at(d),
    {
        let mut v = value;
        match direction.sign {
            Sign::Positive => match direction.axis {
                Axis::X => std::mem::swap(&mut self.pos_x, &mut v),
                Axis::Y => std::mem::swap(&mut self.pos_y, &mut v),
                Axis::Z => std::mem::swap(&mut self.pos_z, &mut v),
            },
            Sign::Negative => match direction.axis {
                Axis::X => std::mem::swap(&mut self.neg_x, &mut v),
                Axis::Y => std::mem::swap(&mut self.neg_y, &mut v),
                Axis::Z => std::mem::swap(&mut self.neg_z, &mut v),
            },
        }
        v
    }
}

} // verus!
