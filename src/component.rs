//! Component values and the per-type component store.
use vstd::prelude::*;
use std::collections::VecDeque;
use crate::ids::{ComponentId, EntityId};
use crate::replication::Replicate;

verus! {

/// What a component holds: the replication policy, an encoded value of a
/// serializable type, or a value that never leaves this process.
#[derive(Debug)]
pub enum ComponentData {
    Replicate(Replicate),
    Serializable(Vec<u8>),
    Local(Vec<u8>),
}

/// A component value together with the id of its type.
#[derive(Debug)]
pub struct Component {
    pub component_id: ComponentId,
    pub data: ComponentData,
}

impl Component {
    /// Value equality: same type id and same contents.
    pub open spec fn same_value(&self, other: &Component) -> bool {
        &&& self.component_id == other.component_id
        &&& match (self.data, other.data) {
            (ComponentData::Replicate(a), ComponentData::Replicate(b)) => a.same_policy(&b),
            (ComponentData::Serializable(a), ComponentData::Serializable(b)) => a@ == b@,
            (ComponentData::Local(a), ComponentData::Local(b)) => a@ == b@,
            _ => false,
        }
    }

    pub open spec fn serializable(&self) -> bool {
        !(self.data is Local)
    }

    pub fn value_eq(&self, other: &Component) -> (r: bool)
        ensures
            r == self.same_value(other),
    {
        if self.component_id.0 != other.component_id.0 {
            return false;
        }
        match (&self.data, &other.data) {
            (ComponentData::Replicate(a), ComponentData::Replicate(b)) => a.policy_eq(b),
            (ComponentData::Serializable(a), ComponentData::Serializable(b)) => bytes_equal(a, b),
            (ComponentData::Local(a), ComponentData::Local(b)) => bytes_equal(a, b),
            _ => false,
        }
    }

    pub fn clone_value(&self) -> (r: Component)
        ensures
            r.same_value(self),
    {
        let data = match &self.data {
            ComponentData::Replicate(p) => ComponentData::Replicate(p.duplicate()),
            ComponentData::Serializable(b) => ComponentData::Serializable(copy_bytes(b)),
            ComponentData::Local(b) => ComponentData::Local(copy_bytes(b)),
        };
        Component { component_id: self.component_id, data }
    }

    pub fn component_id(&self) -> (r: ComponentId)
        ensures
            r == self.component_id,
    {
        self.component_id
    }

    /// Whether the component may cross a process boundary.
    pub fn is_serializable(&self) -> (r: bool)
        ensures
            r == self.serializable(),
    {
        match &self.data {
            ComponentData::Local(_) => false,
            _ => true,
        }
    }

    /// The replication policy, where this component is one.
    pub fn as_replicate(&self) -> (r: Option<&Replicate>)
        ensures
            r is Some <==> self.data is Replicate,
            r is Some ==> self.data == ComponentData::Replicate(*r->0),
    {
        match &self.data {
            ComponentData::Replicate(p) => Some(p),
            _ => None,
        }
    }
}

fn bytes_equal(a: &Vec<u8>, b: &Vec<u8>) -> (r: bool)
    ensures
        r == (a@ == b@),
{
    if a.len() != b.len() {
        return false;
    }
    let mut i: usize = 0;
    while i < a.len()
        invariant
            i <= a.len(),
            a.len() == b.len(),
            forall|j: int| 0 <= j < i ==> a@[j] == b@[j],
        decreases a.len() - i,
    {
        if a[i] != b[i] {
            return false;
        }
        i = i + 1;
    }
    assert(a@ =~= b@);
    true
}

fn copy_bytes(b: &Vec<u8>) -> (r: Vec<u8>)
    ensures
        r@ == b@,
{
    let r = b.clone();
    assert(r@ =~= b@);
    r
}

/// Every value of one component type, keyed by entity.
///
/// Values sit in slots of `components`; `entity_component_indices` maps an
/// entity's number to its slot; emptied slots wait in
/// `deleted_component_indices` to be reused.
#[derive(Debug)]
pub struct ComponentSet {
    component_id: ComponentId,
    components: Vec<Option<Component>>,
    entity_component_indices: Vec<Option<usize>>,
    deleted_component_indices: VecDeque<usize>,
}

impl ComponentSet {
    /// The component type this set is bound to.
    pub closed spec fn id(&self) -> ComponentId {
        self.component_id
    }

    /// The length of the sparse index: every stored entity number is below it.
    pub closed spec fn bound(&self) -> nat {
        self.entity_component_indices@.len()
    }

    closed spec fn slot_of(&self, e: u32) -> Option<usize> {
        if (e as int) < self.entity_component_indices@.len() {
            self.entity_component_indices@[e as int]
        } else {
            None
        }
    }

    /// The slot holding the entity's value, if it has one.
    pub closed spec fn slot_for(&self, e: u32) -> Option<usize> {
        self.slot_of(e)
    }

    /// The emptied slots waiting for reuse, oldest first.
    pub closed spec fn free_slots(&self) -> Seq<usize> {
        self.deleted_component_indices@
    }

    /// The number of slots, used or free.
    pub closed spec fn slot_count(&self) -> nat {
        self.components@.len()
    }

    /// No slot on the free list holds a value of any entity.
    pub proof fn lemma_free_slots_unused(&self)
        requires
            self.wf(),
        ensures
            forall|e: u32, k: int| 0 <= k < self.free_slots().len() && #[trigger] self.slot_for(e) is Some
                ==> self.slot_for(e)->0 != #[trigger] self.free_slots()[k],
    {
        assert forall|e: u32, k: int| 0 <= k < self.free_slots().len() && #[trigger] self.slot_for(e) is Some
            implies self.slot_for(e)->0 != #[trigger] self.free_slots()[k] by {
            assert(self.entity_component_indices@[e as int] is Some);
        }
    }

    /// The stored values, keyed by entity number.
    pub closed spec fn view(&self) -> Map<u32, Component> {
        Map::new(
            |e: u32| self.slot_of(e) is Some,
            |e: u32| self.components@[self.slot_of(e)->0 as int]->0,
        )
    }

    /// The slots and the sparse index agree, and free slots are empty.
    pub closed spec fn wf(&self) -> bool {
        let idx = self.entity_component_indices@;
        let comps = self.components@;
        let free = self.deleted_component_indices@;
        &&& forall|e: int|
            0 <= e < idx.len() && #[trigger] idx[e] is Some ==> {
                &&& idx[e]->0 < comps.len()
                &&& comps[idx[e]->0 as int] is Some
                &&& comps[idx[e]->0 as int]->0.component_id == self.component_id
            }
        &&& forall|e1: int, e2: int|
            0 <= e1 < idx.len() && 0 <= e2 < idx.len() && #[trigger] idx[e1] is Some
                && #[trigger] idx[e2] == idx[e1] ==> e1 == e2
        &&& forall|k: int|
            0 <= k < free.len() ==> #[trigger] free[k] < comps.len() && comps[free[k] as int] is None
        &&& free.no_duplicates()
        &&& idx.len() <= u32::MAX as nat + 1
    }

    pub fn new(component_id: ComponentId) -> (r: ComponentSet)
        ensures
            r.wf(),
            r.id() == component_id,
            r@ == Map::<u32, Component>::empty(),
            r.bound() == 0,
    {
        let r = ComponentSet {
            component_id,
            components: Vec::new(),
            entity_component_indices: Vec::new(),
            deleted_component_indices: VecDeque::new(),
        };
        assert(r@ =~= Map::<u32, Component>::empty());
        r
    }

    pub fn component_id(&self) -> (r: ComponentId)
        ensures
            r == self.id(),
    {
        self.component_id
    }

    /// The length of the sparse entity index.
    pub fn index_len(&self) -> (r: usize)
        requires
            self.wf(),
        ensures
            r == self.bound(),
            r <= u32::MAX as nat + 1,
            forall|e: u32| #[trigger] self@.contains_key(e) ==> (e as nat) < r,
    {
        self.entity_component_indices.len()
    }

    pub fn has_entity(&self, entity_id: EntityId) -> (r: bool)
        ensures
            r == self@.contains_key(entity_id.0),
    {
        let index = entity_id.0 as usize;
        index < self.entity_component_indices.len() && self.entity_component_indices[index].is_some()
    }

    pub fn get(&self, entity_id: EntityId) -> (r: Option<&Component>)
        requires
            self.wf(),
        ensures
            r is Some <==> self@.contains_key(entity_id.0),
            r is Some ==> *r->0 == self@[entity_id.0],
    {
        let index = entity_id.0 as usize;
        if index >= self.entity_component_indices.len() {
            return None;
        }
        match self.entity_component_indices[index] {
            Some(slot) => {
                assert(self.entity_component_indices@[index as int] is Some);
                match &self.components[slot] {
                    Some(c) => Some(c),
                    None => None,
                }
            },
            None => None,
        }
    }

    fn reserve_entity_component_indices(&mut self, highest_id: usize)
        requires
            old(self).wf(),
            highest_id <= u32::MAX,
        ensures
            final(self).wf(),
            final(self).id() == old(self).id(),
            final(self)@ == old(self)@,
            final(self).bound() == if old(self).bound() <= highest_id {
                highest_id as nat + 1
            } else {
                old(self).bound()
            },
            final(self).components == old(self).components,
            final(self).deleted_component_indices == old(self).deleted_component_indices,
    {
        let ghost before = *self;
        if self.entity_component_indices.len() > highest_id {
            return;
        }
        while self.entity_component_indices.len() <= highest_id
            invariant
                self.wf(),
                self.component_id == before.component_id,
                self.components == before.components,
                self.deleted_component_indices == before.deleted_component_indices,
                self@ == before@,
                highest_id <= u32::MAX,
                self.entity_component_indices@.len() <= highest_id as nat + 1,
                before.entity_component_indices@.len() <= self.entity_component_indices@.len(),
                self.entity_component_indices@.subrange(0, before.bound() as int)
                    == before.entity_component_indices@,
                forall|e: int|
                    before.bound() <= e < self.entity_component_indices@.len()
                        ==> self.entity_component_indices@[e] is None,
            decreases highest_id + 1 - self.entity_component_indices.len(),
        {
            let ghost prev = *self;
            self.entity_component_indices.push(None);
            assert(self.entity_component_indices@.subrange(0, before.bound() as int)
                =~= before.entity_component_indices@) by {
                assert(prev.entity_component_indices@.subrange(0, before.bound() as int)
                    == before.entity_component_indices@);
            }
            assert(self@ =~= prev@) by {
                assert forall|e: u32| #[trigger] self.slot_of(e) == prev.slot_of(e) by {}
            }
        }
    }

    /// Stores `entry` for the entity, returning the value it replaces.
    pub fn set(&mut self, entity_id: EntityId, entry: Component) -> (r: Option<Component>)
        requires
            old(self).wf(),
            entry.component_id == old(self).id(),
        ensures
            final(self).wf(),
            final(self).id() == old(self).id(),
            final(self)@ == old(self)@.insert(entity_id.0, entry),
            r == if old(self)@.contains_key(entity_id.0) {
                Some(old(self)@[entity_id.0])
            } else {
                None
            },
            final(self).bound() == if (entity_id.0 as nat) < old(self).bound() {
                old(self).bound()
            } else {
                entity_id.0 as nat + 1
            },
            old(self)@.contains_key(entity_id.0) ==> final(self).free_slots() == old(self).free_slots()
                && final(self).slot_count() == old(self).slot_count() && final(self).slot_for(entity_id.0) == old(self).slot_for(entity_id.0),
            !old(self)@.contains_key(entity_id.0) && old(self).free_slots().len() > 0 ==> final(self).slot_for(entity_id.0)
                == Some(old(self).free_slots()[0]) && final(self).free_slots() == old(self).free_slots().drop_first()
                && final(self).slot_count() == old(self).slot_count(),
            !old(self)@.contains_key(entity_id.0) && old(self).free_slots().len() == 0 ==> final(self).slot_for(entity_id.0)
                == Some(old(self).slot_count() as usize) && final(self).free_slots() == old(self).free_slots()
                && final(self).slot_count() == old(self).slot_count() + 1,
    {
        let ghost e = entity_id.0;
        let index = entity_id.0 as usize;
        if index < self.entity_component_indices.len() {
            match self.entity_component_indices[index] {
                Some(slot) => {
                    let ghost before = *self;
                    assert(self.entity_component_indices@[index as int] is Some);
                    let mut tmp = Some(entry);
                    self.components.set_and_swap(slot, &mut tmp);
                    assert(self@ =~= before@.insert(e, entry)) by {
                        assert forall|x: u32| #[trigger] self.slot_of(x) is Some && x != e
                            implies self.components@[self.slot_of(x)->0 as int]
                            == before.components@[before.slot_of(x)->0 as int] by {
                            assert(self.slot_of(x) == before.slot_of(x));
                            assert(self.slot_of(x)->0 != slot);
                        }
                    }
                    assert(self.wf()) by {
                        let idx = self.entity_component_indices@;
                        let comps = self.components@;
                        assert forall|k: int|
                            0 <= k < self.deleted_component_indices@.len() implies #[trigger] self.deleted_component_indices@[k] < comps.len()
                            && comps[self.deleted_component_indices@[k] as int] is None by {
                            assert(before.deleted_component_indices@[k] != slot);
                        }
                    }
                    return tmp;
                },
                None => {},
            }
        }
        assert(!self@.contains_key(e));
        self.reserve_entity_component_indices(index);
        let ghost before = *self;
        assert(!before@.contains_key(e));
        assert(before.slot_of(e) is None);
        match self.deleted_component_indices.pop_front() {
            Some(slot) => {
                assert(before.deleted_component_indices@[0] == slot);
                self.components.set(slot, Some(entry));
                self.entity_component_indices.set(index, Some(slot));
                assert(forall|k: int| 0 <= k < self.deleted_component_indices@.len()
                    ==> self.deleted_component_indices@[k] == before.deleted_component_indices@[k + 1]);
                assert(forall|x: int| 0 <= x < before.entity_component_indices@.len()
                    && before.entity_component_indices@[x] is Some
                    ==> before.entity_component_indices@[x]->0 != slot);
            },
            None => {
                self.components.push(Some(entry));
                let slot = self.components.len() - 1;
                self.entity_component_indices.set(index, Some(slot));
                assert(forall|x: int| 0 <= x < before.entity_component_indices@.len()
                    && before.entity_component_indices@[x] is Some
                    ==> before.entity_component_indices@[x]->0 != slot);
            },
        }
        assert(self@ =~= before@.insert(e, entry)) by {
            assert forall|x: u32| #[trigger] self.slot_of(x) is Some && x != e
                implies self.components@[self.slot_of(x)->0 as int]
                == before.components@[before.slot_of(x)->0 as int] by {
                assert(self.slot_of(x) == before.slot_of(x));
            }
        }
        None
    }

    /// Removes the entity's value and returns it; its slot is kept for reuse.
    pub fn delete(&mut self, entity_id: EntityId) -> (r: Option<Component>)
        requires
            old(self).wf(),
        ensures
            final(self).wf(),
            final(self).id() == old(self).id(),
            final(self).bound() == old(self).bound(),
            final(self)@ == old(self)@.remove(entity_id.0),
            r == if old(self)@.contains_key(entity_id.0) {
                Some(old(self)@[entity_id.0])
            } else {
                None
            },
            final(self).slot_count() == old(self).slot_count(),
            final(self).slot_for(entity_id.0) is None,
            old(self)@.contains_key(entity_id.0) ==> final(self).free_slots() == old(self).free_slots().push(
                old(self).slot_for(entity_id.0)->0,
            ),
            !old(self)@.contains_key(entity_id.0) ==> final(self).free_slots() == old(self).free_slots(),
    {
        let ghost e = entity_id.0;
        let ghost before = *self;
        let index = entity_id.0 as usize;
        if index >= self.entity_component_indices.len() {
            assert(self@ =~= before@.remove(e));
            return None;
        }
        match self.entity_component_indices[index] {
            None => {
                assert(self@ =~= before@.remove(e));
                None
            },
            Some(slot) => {
                assert(before.entity_component_indices@[index as int] is Some);
                assert(!before.deleted_component_indices@.contains(slot));
                self.deleted_component_indices.push_back(slot);
                self.entity_component_indices.set(index, None);
                let mut tmp: Option<Component> = None;
                self.components.set_and_swap(slot, &mut tmp);
                assert(self@ =~= before@.remove(e)) by {
                    assert forall|x: u32| #[trigger] self.slot_of(x) is Some
                        implies self.components@[self.slot_of(x)->0 as int]
                        == before.components@[before.slot_of(x)->0 as int] by {
                        assert(self.slot_of(x) == before.slot_of(x));
                        assert(self.slot_of(x)->0 != slot);
                    }
                }
                assert(self.wf()) by {
                    let free = self.deleted_component_indices@;
                    assert forall|k: int| 0 <= k < free.len() implies #[trigger] free[k]
                        < self.components@.len() && self.components@[free[k] as int] is None by {
                        if k < free.len() - 1 {
                            assert(free[k] == before.deleted_component_indices@[k]);
                        }
                    }
                    assert forall|i: int, j: int| 0 <= i < free.len() && 0 <= j < free.len() && i != j
                        implies free[i] != free[j] by {
                        if i < free.len() - 1 && j < free.len() - 1 {
                            assert(free[i] == before.deleted_component_indices@[i]);
                            assert(free[j] == before.deleted_component_indices@[j]);
                        } else if i < free.len() - 1 {
                            assert(free[i] == before.deleted_component_indices@[i]);
                        } else if j < free.len() - 1 {
                            assert(free[j] == before.deleted_component_indices@[j]);
                        }
                    }
                }
                tmp
            },
        }
    }

    /// The contents of the entity's value, for changing in place; the type id stays.
    pub fn get_mut(&mut self, entity_id: EntityId) -> (r: Option<&mut ComponentData>)
        requires
            old(self).wf(),
        ensures
            r is Some <==> old(self)@.contains_key(entity_id.0),
            r is Some ==> *r->0 == old(self)@[entity_id.0].data,
            final(self).wf(),
            final(self).id() == old(self).id(),
            final(self).bound() == old(self).bound(),
            r is None ==> *final(self) == *old(self),
            r is Some ==> final(self)@ == old(self)@.insert(
                entity_id.0,
                Component { component_id: old(self)@[entity_id.0].component_id, data: *final(r->0) },
            ),
    {
        let index = entity_id.0 as usize;
        if index >= self.entity_component_indices.len() {
            return None;
        }
        match self.entity_component_indices[index] {
            Some(slot) => {
                assert(self.entity_component_indices@[index as int] is Some);
                match &mut self.components[slot] {
                    Some(c) => Some(&mut c.data),
                    None => None,
                }
            },
            None => None,
        }
    }

    /// Every stored value carries the set's component id.
    pub proof fn lemma_ids(&self)
        requires
            self.wf(),
        ensures
            forall|e: u32| #[trigger] self@.contains_key(e) ==> self@[e].component_id == self.id(),
    {
    }
}

/// The entry of component type `c` in a list of components, if any.
pub open spec fn entry_of(s: Seq<Component>, c: ComponentId) -> Option<Component> {
    if exists|i: int| 0 <= i < s.len() && (#[trigger] s[i]).component_id == c {
        Some(s[choose|i: int| 0 <= i < s.len() && (#[trigger] s[i]).component_id == c])
    } else {
        None
    }
}

/// No two entries of a list share a component type.
pub open spec fn distinct_ids(s: Seq<Component>) -> bool {
    forall|a: int, b: int| 0 <= a < s.len() && 0 <= b < s.len() && a != b ==> s[a].component_id != s[b].component_id
}

pub proof fn lemma_entry_at(s: Seq<Component>, i: int)
    requires
        distinct_ids(s),
        0 <= i < s.len(),
    ensures
        entry_of(s, s[i].component_id) == Some(s[i]),
{
    let c = s[i].component_id;
    let j = choose|j: int| 0 <= j < s.len() && (#[trigger] s[j]).component_id == c;
    assert(i == j);
}

pub proof fn lemma_entry_push(s: Seq<Component>, x: Component)
    requires
        distinct_ids(s),
        entry_of(s, x.component_id) is None,
    ensures
        distinct_ids(s.push(x)),
        forall|c: ComponentId| #[trigger] entry_of(s.push(x), c) == if c == x.component_id {
            Some(x)
        } else {
            entry_of(s, c)
        },
{
    let t = s.push(x);
    assert forall|a: int, b: int| 0 <= a < t.len() && 0 <= b < t.len() && a != b implies t[a].component_id != t[b].component_id by {
        if a == s.len() as int && b < s.len() {
            assert(t[b] == s[b]);
        } else if b == s.len() as int && a < s.len() {
            assert(t[a] == s[a]);
        } else {
            assert(t[a] == s[a] && t[b] == s[b]);
        }
    }
    assert forall|c: ComponentId| #[trigger] entry_of(t, c) == if c == x.component_id {
        Some(x)
    } else {
        entry_of(s, c)
    } by {
        if c == x.component_id {
            lemma_entry_at(t, s.len() as int);
        } else {
            if exists|i: int| 0 <= i < s.len() && (#[trigger] s[i]).component_id == c {
                let i = choose|i: int| 0 <= i < s.len() && (#[trigger] s[i]).component_id == c;
                lemma_entry_at(s, i);
                assert(t[i] == s[i]);
                lemma_entry_at(t, i);
            } else {
                assert forall|i: int| 0 <= i < t.len() implies (#[trigger] t[i]).component_id != c by {
                    if i < s.len() {
                        assert(t[i] == s[i]);
                    }
                }
            }
        }
    }
}

pub proof fn lemma_entry_pop(s: Seq<Component>)
    requires
        distinct_ids(s),
        s.len() > 0,
    ensures
        distinct_ids(s.drop_last()),
        forall|c: ComponentId| #[trigger] entry_of(s.drop_last(), c) == if c == s.last().component_id {
            None
        } else {
            entry_of(s, c)
        },
{
    let t = s.drop_last();
    assert(s =~= t.push(s.last()));
    assert forall|a: int, b: int| 0 <= a < t.len() && 0 <= b < t.len() && a != b implies t[a].component_id != t[b].component_id by {
        assert(t[a] == s[a] && t[b] == s[b]);
    }
    assert forall|i: int| 0 <= i < t.len() implies (#[trigger] t[i]).component_id != s.last().component_id by {
        assert(t[i] == s[i]);
    }
    lemma_entry_push(t, s.last());
}

/// The position of the entry of type `c`, where there is one.
pub open spec fn find_index(s: Seq<Component>, c: ComponentId) -> int {
    choose|i: int| 0 <= i < s.len() && (#[trigger] s[i]).component_id == c
}

/// The position of the entry of type `c`.
pub(crate) fn find_entry(entries: &Vec<Component>, c: ComponentId) -> (r: Option<usize>)
    requires
        distinct_ids(entries@),
    ensures
        r is None <==> entry_of(entries@, c) is None,
        r is Some ==> r->0 < entries@.len() && entries@[r->0 as int].component_id == c
            && entry_of(entries@, c) == Some(entries@[r->0 as int]),
{
    let mut i: usize = 0;
    while i < entries.len()
        invariant
            distinct_ids(entries@),
            i <= entries@.len(),
            forall|j: int| 0 <= j < i ==> (#[trigger] entries@[j]).component_id != c,
        decreases entries.len() - i,
    {
        if entries[i].component_id.0 == c.0 {
            proof { lemma_entry_at(entries@, i as int); }
            return Some(i);
        }
        i = i + 1;
    }
    None
}

pub proof fn lemma_entry_update(s: Seq<Component>, i: int, x: Component)
    requires
        distinct_ids(s),
        0 <= i < s.len(),
        s[i].component_id == x.component_id,
    ensures
        distinct_ids(s.update(i, x)),
        forall|c: ComponentId| #[trigger] entry_of(s.update(i, x), c) == if c == x.component_id {
            Some(x)
        } else {
            entry_of(s, c)
        },
{
    let t = s.update(i, x);
    assert forall|a: int, b: int| 0 <= a < t.len() && 0 <= b < t.len() && a != b implies t[a].component_id != t[b].component_id by {
        assert(t[a].component_id == s[a].component_id);
        assert(t[b].component_id == s[b].component_id);
    }
    assert forall|c: ComponentId| #[trigger] entry_of(t, c) == if c == x.component_id {
        Some(x)
    } else {
        entry_of(s, c)
    } by {
        if c == x.component_id {
            lemma_entry_at(t, i);
        } else if exists|j: int| 0 <= j < s.len() && (#[trigger] s[j]).component_id == c {
            let j = choose|j: int| 0 <= j < s.len() && (#[trigger] s[j]).component_id == c;
            lemma_entry_at(s, j);
            assert(t[j] == s[j]);
            lemma_entry_at(t, j);
        } else {
            assert forall|j: int| 0 <= j < t.len() implies (#[trigger] t[j]).component_id != c by {
                assert(t[j].component_id == s[j].component_id);
            }
        }
    }
}

/// Stores `x` as the entry of its type, replacing any earlier one.
pub(crate) fn upsert_entry(entries: &mut Vec<Component>, x: Component)
    requires
        distinct_ids(old(entries)@),
    ensures
        distinct_ids(final(entries)@),
        forall|c: ComponentId| #[trigger] entry_of(final(entries)@, c) == if c == x.component_id {
            Some(x)
        } else {
            entry_of(old(entries)@, c)
        },
{
    match find_entry(entries, x.component_id) {
        Some(i) => {
            proof { lemma_entry_update(entries@, i as int, x); }
            entries.set(i, x);
        },
        None => {
            proof { lemma_entry_push(entries@, x); }
            entries.push(x);
        },
    }
}

pub proof fn lemma_entry_remove(s: Seq<Component>, i: int)
    requires
        distinct_ids(s),
        0 <= i < s.len(),
    ensures
        distinct_ids(s.remove(i)),
        forall|c: ComponentId| #[trigger] entry_of(s.remove(i), c) == if c == s[i].component_id {
            None
        } else {
            entry_of(s, c)
        },
{
    let t = s.remove(i);
    assert forall|k: int| 0 <= k < t.len() implies #[trigger] t[k] == s[if k < i { k } else { k + 1 }] by {}
    assert forall|a: int, b: int| 0 <= a < t.len() && 0 <= b < t.len() && a != b implies t[a].component_id != t[b].component_id by {
        assert(t[a] == s[if a < i { a } else { a + 1 }]);
        assert(t[b] == s[if b < i { b } else { b + 1 }]);
    }
    assert forall|c: ComponentId| #[trigger] entry_of(t, c) == if c == s[i].component_id {
        None
    } else {
        entry_of(s, c)
    } by {
        if exists|k: int| 0 <= k < t.len() && (#[trigger] t[k]).component_id == c {
            let k = choose|k: int| 0 <= k < t.len() && (#[trigger] t[k]).component_id == c;
            let j = if k < i { k } else { k + 1 };
            assert(t[k] == s[j]);
            lemma_entry_at(t, k);
            lemma_entry_at(s, j);
        } else if c != s[i].component_id && exists|j: int| 0 <= j < s.len() && (#[trigger] s[j]).component_id == c {
            let j = choose|j: int| 0 <= j < s.len() && (#[trigger] s[j]).component_id == c;
            let k = if j < i { j } else { j - 1 };
            assert(t[k] == s[j]);
        }
    }
}

/// The components of one object, at most one of each type.
#[derive(Debug)]
pub struct ComponentBundle {
    components: Vec<Component>,
}

impl ComponentBundle {
    /// The held components, in no particular order.
    pub closed spec fn entries(&self) -> Seq<Component> {
        self.components@
    }

    pub closed spec fn wf(&self) -> bool {
        distinct_ids(self.components@)
    }

    /// The held component of type `c`, if any.
    pub open spec fn component(&self, c: ComponentId) -> Option<Component> {
        entry_of(self.entries(), c)
    }

    pub fn new() -> (r: ComponentBundle)
        ensures
            r.wf(),
            r.entries().len() == 0,
            forall|c: ComponentId| #[trigger] r.component(c) is None,
    {
        ComponentBundle { components: Vec::new() }
    }

    pub fn has_component(&self, component_id: ComponentId) -> (r: bool)
        requires
            self.wf(),
        ensures
            r == self.component(component_id) is Some,
    {
        find_entry(&self.components, component_id).is_some()
    }

    pub fn get_component(&self, component_id: ComponentId) -> (r: Option<&Component>)
        requires
            self.wf(),
        ensures
            r is Some <==> self.component(component_id) is Some,
            r is Some ==> *r->0 == self.component(component_id)->0,
    {
        match find_entry(&self.components, component_id) {
            Some(i) => Some(&self.components[i]),
            None => None,
        }
    }

    /// The contents of the component of the given type, for changing in place;
    /// its type stays.
    pub fn get_component_mut(&mut self, component_id: ComponentId) -> (r: Option<&mut ComponentData>)
        requires
            old(self).wf(),
        ensures
            final(self).wf(),
            r is Some <==> old(self).component(component_id) is Some,
            r is Some ==> *r->0 == old(self).component(component_id)->0.data,
            r is None ==> final(self).entries() == old(self).entries(),
            r is Some ==> final(self).entries() == old(self).entries().update(
                find_index(old(self).entries(), component_id),
                Component { component_id, data: *final(r->0) },
            ),
    {
        match find_entry(&self.components, component_id) {
            Some(i) => {
                proof { lemma_entry_at(self.components@, i as int); }
                let c = &mut self.components[i];
                Some(&mut c.data)
            },
            None => None,
        }
    }

    /// Every held component, in storage order.
    pub fn iter(&self) -> (r: Vec<&Component>)
        requires
            self.wf(),
        ensures
            r@.len() == self.entries().len(),
            forall|k: int| 0 <= k < r@.len() ==> *#[trigger] r@[k] == self.entries()[k],
    {
        let mut r: Vec<&Component> = Vec::new();
        let mut k: usize = 0;
        while k < self.components.len()
            invariant
                k <= self.components@.len(),
                r@.len() == k,
                forall|j: int| 0 <= j < k ==> *#[trigger] r@[j] == self.components@[j],
            decreases self.components.len() - k,
        {
            r.push(&self.components[k]);
            k = k + 1;
        }
        r
    }

    /// The held components that may cross a process boundary, in storage order.
    pub fn iter_serializable(&self) -> (r: Vec<&Component>)
        requires
            self.wf(),
        ensures
            forall|k: int| 0 <= k < r@.len() ==> (#[trigger] r@[k]).serializable() && self.component(r@[k].component_id) == Some(*r@[k]),
            forall|c: ComponentId| #[trigger] self.component(c) is Some && self.component(c)->0.serializable() ==> exists|k: int|
                0 <= k < r@.len() && (#[trigger] r@[k]).component_id == c,
    {
        let mut r: Vec<&Component> = Vec::new();
        let mut k: usize = 0;
        while k < self.components.len()
            invariant
                self.wf(),
                k <= self.components@.len(),
                forall|j: int| 0 <= j < r@.len() ==> (#[trigger] r@[j]).serializable() && self.component(r@[j].component_id) == Some(*r@[j]),
                forall|j: int| 0 <= j < k && (#[trigger] self.components@[j]).serializable() ==> exists|q: int|
                    0 <= q < r@.len() && (#[trigger] r@[q]).component_id == self.components@[j].component_id,
            decreases self.components.len() - k,
        {
            let ghost prev = r@;
            proof { lemma_entry_at(self.components@, k as int); }
            if self.components[k].is_serializable() {
                r.push(&self.components[k]);
                proof {
                    assert forall|j: int| 0 <= j < k + 1 && (#[trigger] self.components@[j]).serializable() implies exists|q: int|
                        0 <= q < r@.len() && (#[trigger] r@[q]).component_id == self.components@[j].component_id by {
                        if j < k {
                            let q = choose|q: int| 0 <= q < prev.len() && (#[trigger] prev[q]).component_id == self.components@[j].component_id;
                            assert(r@[q] == prev[q]);
                        } else {
                            assert(r@[prev.len() as int] == &self.components@[j]);
                        }
                    }
                }
            }
            k = k + 1;
        }
        proof {
            assert forall|c: ComponentId| #[trigger] self.component(c) is Some && self.component(c)->0.serializable() implies exists|k: int|
                0 <= k < r@.len() && (#[trigger] r@[k]).component_id == c by {
                let j = choose|j: int| 0 <= j < self.components@.len() && (#[trigger] self.components@[j]).component_id == c;
                lemma_entry_at(self.components@, j);
            }
        }
        r
    }

    /// Holds `component`, returning the one of the same type it replaces.
    pub fn set_component(&mut self, component: Component) -> (r: Option<Component>)
        requires
            old(self).wf(),
        ensures
            final(self).wf(),
            r == old(self).component(component.component_id),
            forall|c: ComponentId| #[trigger] final(self).component(c) == if c == component.component_id {
                Some(component)
            } else {
                old(self).component(c)
            },
    {
        match find_entry(&self.components, component.component_id) {
            Some(i) => {
                let ghost id = component.component_id;
                proof { lemma_entry_update(self.components@, i as int, component); }
                let mut slot = component;
                self.components.set_and_swap(i, &mut slot);
                Some(slot)
            },
            None => {
                proof { lemma_entry_push(self.components@, component); }
                self.components.push(component);
                None
            },
        }
    }

    /// Removes and returns the component of the given type.
    pub fn delete_component(&mut self, component_id: ComponentId) -> (r: Option<Component>)
        requires
            old(self).wf(),
        ensures
            final(self).wf(),
            r == old(self).component(component_id),
            forall|c: ComponentId| #[trigger] final(self).component(c) == if c == component_id {
                None
            } else {
                old(self).component(c)
            },
    {
        match find_entry(&self.components, component_id) {
            Some(i) => {
                proof { lemma_entry_remove(self.components@, i as int); }
                Some(self.components.remove(i))
            },
            None => None,
        }
    }

    /// The `with` components in order, if `with` is not empty, all of them are
    /// held and no `without` one is.
    pub fn query(&self, with: &[ComponentId], without: &[ComponentId]) -> (r: Option<Vec<&Component>>)
        requires
            self.wf(),
        ensures
            r is Some <==> with@.len() > 0 && (forall|k: int| 0 <= k < with@.len() ==> (#[trigger] self.component(with@[k])) is Some)
                && (forall|k: int| 0 <= k < without@.len() ==> (#[trigger] self.component(without@[k])) is None),
            r is Some ==> r->0@.len() == with@.len() && forall|k: int|
                0 <= k < with@.len() ==> Some(*#[trigger] r->0@[k]) == self.component(with@[k]),
    {
        if with.len() == 0 {
            return None;
        }
        let mut k: usize = 0;
        while k < without.len()
            invariant
                self.wf(),
                with@.len() > 0,
                k <= without@.len(),
                forall|j: int| 0 <= j < k ==> (#[trigger] self.component(without@[j])) is None,
            decreases without.len() - k,
        {
            if self.has_component(without[k]) {
                return None;
            }
            k = k + 1;
        }
        let mut found: Vec<&Component> = Vec::new();
        let mut k: usize = 0;
        while k < with.len()
            invariant
                self.wf(),
                k <= with@.len(),
                found@.len() == k,
                with@.len() > 0,
                forall|j: int| 0 <= j < without@.len() ==> (#[trigger] self.component(without@[j])) is None,
                forall|j: int| 0 <= j < k ==> Some(*#[trigger] found@[j]) == self.component(with@[j]),
                forall|j: int| 0 <= j < k ==> (#[trigger] self.component(with@[j])) is Some,
            decreases with.len() - k,
        {
            match self.get_component(with[k]) {
                Some(c) => found.push(c),
                None => return None,
            }
            k = k + 1;
        }
        Some(found)
    }
}

/// A bundle whose components may all cross a process boundary.
#[derive(Debug)]
pub struct SerializableComponentBundle {
    bundle: ComponentBundle,
}

impl SerializableComponentBundle {
    pub closed spec fn wf(&self) -> bool {
        &&& self.bundle.wf()
        &&& forall|k: int| 0 <= k < self.bundle.entries().len() ==> (#[trigger] self.bundle.entries()[k]).serializable()
    }

    /// The held component of type `c`, if any.
    pub closed spec fn component(&self, c: ComponentId) -> Option<Component> {
        self.bundle.component(c)
    }

    proof fn lemma_held_serializable(&self, c: ComponentId)
        requires
            self.wf(),
        ensures
            self.component(c) is Some ==> self.component(c)->0.serializable(),
    {
        if self.component(c) is Some {
            let i = choose|i: int| 0 <= i < self.bundle.entries().len() && (#[trigger] self.bundle.entries()[i]).component_id == c;
        }
    }

    pub fn new() -> (r: SerializableComponentBundle)
        ensures
            r.wf(),
            forall|c: ComponentId| #[trigger] r.component(c) is None,
    {
        SerializableComponentBundle { bundle: ComponentBundle::new() }
    }

    pub fn has_component(&self, component_id: ComponentId) -> (r: bool)
        requires
            self.wf(),
        ensures
            r == self.component(component_id) is Some,
    {
        self.bundle.has_component(component_id)
    }

    pub fn get_component(&self, component_id: ComponentId) -> (r: Option<&Component>)
        requires
            self.wf(),
        ensures
            r is Some <==> self.component(component_id) is Some,
            r is Some ==> *r->0 == self.component(component_id)->0 && r->0.serializable(),
    {
        proof { self.lemma_held_serializable(component_id); }
        self.bundle.get_component(component_id)
    }

    /// Holds `component`, returning the one of the same type it replaces.
    pub fn set_component(&mut self, component: Component) -> (r: Option<Component>)
        requires
            old(self).wf(),
            component.serializable(),
        ensures
            final(self).wf(),
            r == old(self).component(component.component_id),
            forall|c: ComponentId| #[trigger] final(self).component(c) == if c == component.component_id {
                Some(component)
            } else {
                old(self).component(c)
            },
    {
        let ghost before = self.bundle.entries();
        let ghost id = component.component_id;
        let r = self.bundle.set_component(component);
        proof {
            assert forall|k: int| 0 <= k < self.bundle.entries().len() implies (#[trigger] self.bundle.entries()[k]).serializable() by {
                let x = self.bundle.entries()[k];
                lemma_entry_at(self.bundle.entries(), k);
                assert(self.bundle.component(x.component_id) == Some(x));
                if x.component_id != id {
                    assert(entry_of(before, x.component_id) == Some(x));
                    let j = choose|j: int| 0 <= j < before.len() && (#[trigger] before[j]).component_id == x.component_id;
                    lemma_entry_at(before, j);
                }
            }
        }
        r
    }

    /// Removes and returns the component of the given type.
    pub fn delete_component(&mut self, component_id: ComponentId) -> (r: Option<Component>)
        requires
            old(self).wf(),
        ensures
            final(self).wf(),
            r == old(self).component(component_id),
            forall|c: ComponentId| #[trigger] final(self).component(c) == if c == component_id {
                None
            } else {
                old(self).component(c)
            },
    {
        let ghost before = self.bundle.entries();
        let r = self.bundle.delete_component(component_id);
        proof {
            assert forall|k: int| 0 <= k < self.bundle.entries().len() implies (#[trigger] self.bundle.entries()[k]).serializable() by {
                let x = self.bundle.entries()[k];
                lemma_entry_at(self.bundle.entries(), k);
                assert(self.bundle.component(x.component_id) == Some(x));
                assert(x.component_id != component_id);
                assert(entry_of(before, x.component_id) == Some(x));
                let j = choose|j: int| 0 <= j < before.len() && (#[trigger] before[j]).component_id == x.component_id;
                lemma_entry_at(before, j);
            }
        }
        r
    }

    /// The `with` components in order, if `with` is not empty, all of them are
    /// held and no `without` one is.
    pub fn query(&self, with: &[ComponentId], without: &[ComponentId]) -> (r: Option<Vec<&Component>>)
        requires
            self.wf(),
        ensures
            r is Some <==> with@.len() > 0 && (forall|k: int| 0 <= k < with@.len() ==> (#[trigger] self.component(with@[k])) is Some)
                && (forall|k: int| 0 <= k < without@.len() ==> (#[trigger] self.component(without@[k])) is None),
            r is Some ==> r->0@.len() == with@.len() && forall|k: int|
                0 <= k < with@.len() ==> Some(*#[trigger] r->0@[k]) == self.component(with@[k]),
    {
        let r = self.bundle.query(with, without);
        proof {
            assert(forall|c: ComponentId| #[trigger] self.component(c) == self.bundle.component(c));
            if r is Some {
                assert forall|k: int| 0 <= k < with@.len() implies (#[trigger] self.component(with@[k])) is Some by {
                    assert(self.bundle.component(with@[k]) is Some);
                }
                assert forall|k: int| 0 <= k < without@.len() implies (#[trigger] self.component(without@[k])) is None by {
                    assert(self.bundle.component(without@[k]) is None);
                }
            } else if with@.len() > 0 && (forall|k: int| 0 <= k < with@.len() ==> (#[trigger] self.component(with@[k])) is Some)
                && (forall|k: int| 0 <= k < without@.len() ==> (#[trigger] self.component(without@[k])) is None) {
                assert forall|k: int| 0 <= k < with@.len() implies (#[trigger] self.bundle.component(with@[k])) is Some by {
                    assert(self.component(with@[k]) is Some);
                }
                assert forall|k: int| 0 <= k < without@.len() implies (#[trigger] self.bundle.component(without@[k])) is None by {
                    assert(self.component(without@[k]) is None);
                }
            }
        }
        r
    }

    /// Every held component, in storage order.
    pub fn iter(&self) -> (r: Vec<&Component>)
        requires
            self.wf(),
        ensures
            forall|k: int| 0 <= k < r@.len() ==> (#[trigger] r@[k]).serializable() && self.component(r@[k].component_id) == Some(*r@[k]),
            forall|c: ComponentId| #[trigger] self.component(c) is Some ==> exists|k: int|
                0 <= k < r@.len() && (#[trigger] r@[k]).component_id == c,
    {
        let r = self.bundle.iter();
        proof {
            assert forall|k: int| 0 <= k < r@.len() implies (#[trigger] r@[k]).serializable() && self.component(r@[k].component_id) == Some(*r@[k]) by {
                lemma_entry_at(self.bundle.entries(), k);
            }
            assert forall|c: ComponentId| #[trigger] self.component(c) is Some implies exists|k: int|
                0 <= k < r@.len() && (#[trigger] r@[k]).component_id == c by {
                let j = choose|j: int| 0 <= j < self.bundle.entries().len() && (#[trigger] self.bundle.entries()[j]).component_id == c;
                assert(r@[j].component_id == c);
            }
        }
        r
    }
}

} // verus!
