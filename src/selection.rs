//! Sets written either as the values they include or as the values they exclude.
use vstd::prelude::*;
use crate::ids::IdKey;

verus! {

/// A whitelist holds exactly its values; a blacklist holds everything but its values.
#[derive(Debug)]
pub enum Selection<T> {
    Whitelist(Vec<T>),
    Blacklist(Vec<T>),
}

impl<T> Selection<T> {
    /// The listed values, whatever the kind of list.
    pub open spec fn values(&self) -> Seq<T> {
        match self {
            Selection::Whitelist(v) => v@,
            Selection::Blacklist(v) => v@,
        }
    }

    pub open spec fn is_whitelist(&self) -> bool {
        self is Whitelist
    }

    /// Whether `x` is a member of the selection.
    pub open spec fn includes(&self, x: T) -> bool {
        match self {
            Selection::Whitelist(v) => v@.contains(x),
            Selection::Blacklist(v) => !v@.contains(x),
        }
    }

    /// The selection that holds nothing.
    pub fn none() -> (r: Self)
        ensures
            r.is_whitelist(),
            r.values() == Seq::<T>::empty(),
            forall|x: T| !r.includes(x),
    {
        Selection::Whitelist(Vec::new())
    }

    /// The selection that holds everything.
    pub fn all() -> (r: Self)
        ensures
            !r.is_whitelist(),
            r.values() == Seq::<T>::empty(),
            forall|x: T| r.includes(x),
    {
        Selection::Blacklist(Vec::new())
    }

    pub fn get_values(&self) -> (r: &Vec<T>)
        ensures
            r@ == self.values(),
    {
        match self {
            Selection::Whitelist(values) => values,
            Selection::Blacklist(values) => values,
        }
    }

    pub fn get_values_mut(&mut self) -> (r: &mut Vec<T>)
        ensures
            r@ == old(self).values(),
            final(self).is_whitelist() == old(self).is_whitelist(),
            final(self).values() == final(r)@,
    {
        match self {
            Selection::Whitelist(values) => values,
            Selection::Blacklist(values) => values,
        }
    }
}

/// Whether `x` occurs in `v`, decided by a linear scan.
fn vec_contains<T: IdKey>(v: &Vec<T>, x: &T) -> (r: bool)
    ensures
        r == v@.contains(*x),
{
    let mut i: usize = 0;
    while i < v.len()
        invariant
            i <= v.len(),
            forall|j: int| 0 <= j < i ==> v@[j] != *x,
        decreases v.len() - i,
    {
        if v[i].same_id(x) {
            return true;
        }
        i = i + 1;
    }
    false
}

/// The index of the first occurrence of `x` in `v`.
fn position_of<T: IdKey>(v: &Vec<T>, x: &T) -> (r: Option<usize>)
    ensures
        r is None <==> !v@.contains(*x),
        r is Some ==> r->0 < v@.len() && v@[r->0 as int] == *x && forall|j: int|
            0 <= j < r->0 ==> v@[j] != *x,
{
    let mut i: usize = 0;
    while i < v.len()
        invariant
            i <= v.len(),
            forall|j: int| 0 <= j < i ==> v@[j] != *x,
        decreases v.len() - i,
    {
        if v[i].same_id(x) {
            return Some(i);
        }
        i = i + 1;
    }
    None
}

/// A copy of `v`, element by element.
pub fn copy_ids<T: IdKey>(v: &Vec<T>) -> (r: Vec<T>)
    ensures
        r@ == v@,
{
    let mut r: Vec<T> = Vec::new();
    let mut i: usize = 0;
    while i < v.len()
        invariant
            i <= v.len(),
            r@ == v@.subrange(0, i as int),
        decreases v.len() - i,
    {
        r.push(v[i]);
        i = i + 1;
        assert(r@ =~= v@.subrange(0, i as int));
    }
    assert(r@ =~= v@);
    r
}

/// Whether two id lists are equal, element by element.
pub fn ids_equal<T: IdKey>(a: &Vec<T>, b: &Vec<T>) -> (r: bool)
    ensures
        r == (a@ == b@),
{
    if a.len() != b.len() {
        return false;
    }
    let mut i: usize = 0;
    while i < a.len()
        invariant
            i <= a.len(),
            a.len() == b.len(),
            forall|j: int| 0 <= j < i ==> a@[j] == b@[j],
        decreases a.len() - i,
    {
        if !a[i].same_id(&b[i]) {
            return false;
        }
        i = i + 1;
    }
    assert(a@ =~= b@);
    true
}

impl<T: IdKey> Selection<T> {
    /// Whether two selections are of the same kind and list the same values.
    pub fn same_as(&self, other: &Self) -> (r: bool)
        ensures
            r == (self.is_whitelist() == other.is_whitelist() && self.values() == other.values()),
    {
        match (self, other) {
            (Selection::Whitelist(a), Selection::Whitelist(b)) => ids_equal(a, b),
            (Selection::Blacklist(a), Selection::Blacklist(b)) => ids_equal(a, b),
            _ => false,
        }
    }

    /// A selection of the same kind listing the same values.
    pub fn duplicate(&self) -> (r: Self)
        ensures
            r.is_whitelist() == self.is_whitelist(),
            r.values() == self.values(),
    {
        match self {
            Selection::Whitelist(v) => Selection::Whitelist(copy_ids(v)),
            Selection::Blacklist(v) => Selection::Blacklist(copy_ids(v)),
        }
    }

    /// Membership: listed for a whitelist, unlisted for a blacklist.
    pub fn contains(&self, value: &T) -> (r: bool)
        ensures
            r == self.includes(*value),
    {
        match self {
            Selection::Whitelist(values) => vec_contains(values, value),
            Selection::Blacklist(values) => !vec_contains(values, value),
        }
    }

    /// Lists `value` unless it is listed already; returns whether it was added.
    pub fn insert(&mut self, value: T) -> (r: bool)
        ensures
            r == !old(self).values().contains(value),
            final(self).is_whitelist() == old(self).is_whitelist(),
            final(self).values() == if r {
                old(self).values().push(value)
            } else {
                old(self).values()
            },
    {
        let values = self.get_values_mut();
        if !vec_contains(values, &value) {
            values.push(value);
            true
        } else {
            false
        }
    }

    /// Takes the first listing of `value` out of the list, moving the last
    /// value into its place.
    pub fn remove(&mut self, value: &T) -> (r: Option<T>)
        ensures
            final(self).is_whitelist() == old(self).is_whitelist(),
            r is None <==> !old(self).values().contains(*value),
            r is None ==> final(self).values() == old(self).values(),
            r is Some ==> r->0 == *value && exists|i: int|
                0 <= i < old(self).values().len() && old(self).values()[i] == *value && (forall|
                    j: int,
                | 0 <= j < i ==> old(self).values()[j] != *value) && final(self).values()
                    == old(self).values().update(i, old(self).values().last()).drop_last(),
    {
        let values = self.get_values_mut();
        match position_of(values, value) {
            Some(i) => {
                let r = values.swap_remove(i);
                Some(r)
            },
            None => None,
        }
    }
}

} // verus!
