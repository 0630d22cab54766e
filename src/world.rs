//! The world: every component set, entity numbering, and queries.
use vstd::prelude::*;
use crate::component::{Component, ComponentData, ComponentSet};
use crate::change_tracker::{
    entry_step, entry_stepped, live, observed, selected, stepped_from_live, stepped_into, update_step, ComponentTrackerEvent,
    EntityComponentTracker, GlobalComponentTracker, TrackerEntry,
};
use crate::events::{EventReceiver, EventSender};
use crate::ids::{ClientId, ComponentId, EntityId, ServerEntityId};
use crate::replication::{replicate_id, NetEcsCommand, Replicate};

verus! {

/// All component sets of a world, the server-id mapping and the next entity number.
#[derive(Debug)]
pub struct World {
    components: Vec<ComponentSet>,
    server_entity_id_map: Vec<(ServerEntityId, EntityId)>,
    next_entity_id: u32,
    change_tracker: GlobalComponentTracker,
}

/// The storage invariant: every set is well formed and bound to its own type,
/// and the server map is a partial bijection onto entities numbered before `next`.
spec fn storage_wf(sets: Seq<ComponentSet>, map: Seq<(ServerEntityId, EntityId)>, next: u32) -> bool {
        &&& forall|i: int| 0 <= i < sets.len() ==> #[trigger] sets[i].wf()
        &&& forall|i: int, j: int|
            0 <= i < sets.len() && 0 <= j < sets.len() && #[trigger] sets[i].id()
                == #[trigger] sets[j].id() ==> i == j
        &&& forall|i: int, j: int|
            0 <= i < map.len() && 0 <= j < map.len()
                && #[trigger] map[i].0 == #[trigger] map[j].0
                ==> i == j
        &&& forall|i: int, j: int|
            0 <= i < map.len() && 0 <= j < map.len()
                && #[trigger] map[i].1 == #[trigger] map[j].1
                ==> i == j
        &&& forall|i: int| 0 <= i < map.len() ==> (#[trigger] map[i]).1.0 < next
    }

/// Every stored component of a list of sets, keyed by entity and component type.
spec fn view_of_sets(sets: Seq<ComponentSet>) -> Map<(EntityId, ComponentId), Component> {
        Map::new(
            |k: (EntityId, ComponentId)|
                exists|i: int|
                    0 <= i < sets.len() && #[trigger] sets[i].id() == k.1
                        && sets[i]@.contains_key(k.0.0),
            |k: (EntityId, ComponentId)|
                {
                    let i = choose|i: int| 0 <= i < sets.len() && #[trigger] sets[i].id() == k.1;
                    sets[i]@[k.0.0]
                },
        )
    }

/// The map that a list of (server id, local id) pairs describes.
spec fn server_map_of(map: Seq<(ServerEntityId, EntityId)>) -> Map<ServerEntityId, EntityId> {
        Map::new(
            |s: ServerEntityId| exists|i: int| 0 <= i < map.len() && #[trigger] map[i].0 == s,
            |s: ServerEntityId| {
                let i = choose|i: int| 0 <= i < map.len() && #[trigger] map[i].0 == s;
                map[i].1
            },
        )
    }

impl World {
    closed spec fn sets(&self) -> Seq<ComponentSet> {
        self.components@
    }

    /// Every stored component, keyed by entity and component type.
    pub closed spec fn view(&self) -> Map<(EntityId, ComponentId), Component> {
        view_of_sets(self.components@)
    }

    /// The number the next new entity gets.
    pub closed spec fn next_id(&self) -> u32 {
        self.next_entity_id
    }

    /// Which local entity each server entity id stands for.
    pub closed spec fn server_map(&self) -> Map<ServerEntityId, EntityId> {
        server_map_of(self.server_entity_id_map@)
    }

    /// An entity exists while it has at least one component.
    pub open spec fn has_entity_spec(&self, entity_id: EntityId) -> bool {
        exists|c: ComponentId| #[trigger] self@.contains_key((entity_id, c))
    }

    /// The entity has every `with` component and no `without` component; with
    /// an empty `with` list it must also exist.
    pub open spec fn matches_query(
        &self,
        entity_id: EntityId,
        with: Seq<ComponentId>,
        without: Seq<ComponentId>,
    ) -> bool {
        &&& (with.len() > 0 || self.has_entity_spec(entity_id))
        &&& forall|k: int| 0 <= k < with.len() ==> self@.contains_key((entity_id, #[trigger] with[k]))
        &&& forall|k: int| 0 <= k < without.len() ==> !self@.contains_key((entity_id, #[trigger] without[k]))
    }

    /// The components a query yields for one entity, in `with` order.
    pub open spec fn query_components(
        &self,
        entity_id: EntityId,
        with: Seq<ComponentId>,
        found: Seq<&Component>,
    ) -> bool {
        &&& found.len() == with.len()
        &&& forall|k: int| 0 <= k < with.len() ==> *#[trigger] found[k] == self@[(entity_id, with[k])]
    }

    /// `found` lists, without repeats, exactly the entity's components that satisfy `keep`.
    pub open spec fn lists_components(
        &self,
        entity_id: EntityId,
        found: Seq<&Component>,
        keep: spec_fn(Component) -> bool,
    ) -> bool {
        &&& forall|k: int|
            0 <= k < found.len() ==> self@.contains_key((entity_id, (#[trigger] found[k]).component_id))
                && *found[k] == self@[(entity_id, found[k].component_id)] && keep(*found[k])
        &&& forall|c: ComponentId|
            #[trigger] self@.contains_key((entity_id, c)) && keep(self@[(entity_id, c)]) ==> exists|k: int|
                0 <= k < found.len() && (#[trigger] found[k]).component_id == c
        &&& forall|a: int, b: int|
            0 <= a < b < found.len() ==> found[a].component_id != found[b].component_id
    }

    /// The component of type `c` on the entity, if any.
    pub open spec fn component_at(&self, entity_id: EntityId, c: ComponentId) -> Option<Component> {
        if self@.contains_key((entity_id, c)) {
            Some(self@[(entity_id, c)])
        } else {
            None
        }
    }

    /// The entity's replication policy, where it has one.
    pub open spec fn replicate_of(&self, entity_id: EntityId) -> Option<Replicate> {
        if self@.contains_key((entity_id, replicate_id())) && self@[(entity_id, replicate_id())].data is Replicate {
            Some(self@[(entity_id, replicate_id())].data->Replicate_0)
        } else {
            None
        }
    }

    /// Whether a client's write of `component` to the entity is allowed.
    pub open spec fn client_may_write(&self, client_id: ClientId, entity_id: EntityId, component: Component) -> bool {
        &&& component.component_id != replicate_id()
        &&& self.replicate_of(entity_id) is Some
        &&& self.replicate_of(entity_id)->0.owner == Some(client_id)
        &&& self.replicate_of(entity_id)->0.client_writable.includes(component.component_id)
    }

    /// The world after a command is applied to `entity_id`.
    pub open spec fn applied(&self, entity_id: EntityId, command: NetEcsCommand) -> Map<(EntityId, ComponentId), Component> {
        match command {
            NetEcsCommand::SetComponent(_, c) => self@.insert((entity_id, c.component_id), c),
            NetEcsCommand::DeleteComponent(_, id) => self@.remove((entity_id, id)),
            NetEcsCommand::DeleteEntity(_) => self@.remove_keys(
                Set::new(|k: (EntityId, ComponentId)| k.0 == entity_id),
            ),
        }
    }

    /// `ids` lists, in increasing order, exactly the entities satisfying the query.
    pub open spec fn is_query_result(&self, with: Seq<ComponentId>, without: Seq<ComponentId>, ids: Seq<EntityId>) -> bool {
        &&& forall|a: int, b: int| 0 <= a < b < ids.len() ==> ids[a].0 < ids[b].0
        &&& forall|e: EntityId| #[trigger] ids.contains(e) == self.matches_query(e, with, without)
    }

    pub closed spec fn wf(&self) -> bool {
        &&& storage_wf(self.components@, self.server_entity_id_map@, self.next_entity_id)
        &&& self.change_tracker.wf()
    }

    /// The world's change tracker.
    pub closed spec fn tracker(&self) -> GlobalComponentTracker {
        self.change_tracker
    }

    /// No two server ids stand for one local entity, and every local entity in
    /// the map was numbered before the next one.
    pub open spec fn server_map_sound(&self) -> bool {
        &&& forall|a: ServerEntityId, b: ServerEntityId|
            #[trigger] self.server_map().contains_key(a) && #[trigger] self.server_map().contains_key(b) && a != b
                ==> self.server_map()[a] != self.server_map()[b]
        &&& forall|a: ServerEntityId| #[trigger] self.server_map().contains_key(a) ==> self.server_map()[a].0 < self.next_id()
    }

    pub proof fn lemma_server_map_sound(&self)
        requires
            self.wf(),
        ensures
            self.server_map_sound(),
    {
        assert forall|a: ServerEntityId, b: ServerEntityId|
            #[trigger] self.server_map().contains_key(a) && #[trigger] self.server_map().contains_key(b) && a != b
                implies self.server_map()[a] != self.server_map()[b] by {
            let i = choose|i: int| 0 <= i < self.server_entity_id_map@.len() && #[trigger] self.server_entity_id_map@[i].0 == a;
            let j = choose|j: int| 0 <= j < self.server_entity_id_map@.len() && #[trigger] self.server_entity_id_map@[j].0 == b;
            assert(i != j);
        }
        assert forall|a: ServerEntityId| #[trigger] self.server_map().contains_key(a) implies self.server_map()[a].0 < self.next_id() by {
            let i = choose|i: int| 0 <= i < self.server_entity_id_map@.len() && #[trigger] self.server_entity_id_map@[i].0 == a;
        }
    }

    proof fn lemma_view_at(&self, i: int, e: EntityId)
        requires
            self.wf(),
            0 <= i < self.sets().len(),
        ensures
            self@.contains_key((e, self.sets()[i].id())) == self.sets()[i]@.contains_key(e.0),
            self.sets()[i]@.contains_key(e.0) ==> self@[(e, self.sets()[i].id())]
                == self.sets()[i]@[e.0],
    {
        let k = (e, self.sets()[i].id());
        if self.sets()[i]@.contains_key(e.0) {
            assert(self@.contains_key(k));
            let j = choose|j: int| 0 <= j < self.sets().len() && #[trigger] self.sets()[j].id() == k.1;
            assert(i == j);
        }
        if self@.contains_key(k) {
            let j = choose|j: int|
                0 <= j < self.sets().len() && #[trigger] self.sets()[j].id() == k.1
                    && self.sets()[j]@.contains_key(k.0.0);
            assert(i == j);
        }
    }

    proof fn lemma_view_missing(&self, c: ComponentId, e: EntityId)
        requires
            forall|i: int| 0 <= i < self.sets().len() ==> #[trigger] self.sets()[i].id() != c,
        ensures
            !self@.contains_key((e, c)),
    {
        if self@.contains_key((e, c)) {
            let sets = self.components@;
            let i = choose|i: int| 0 <= i < sets.len() && #[trigger] sets[i].id() == c && sets[i]@.contains_key(e.0);
            assert(self.sets()[i].id() == c);
        }
    }

    /// Replacing one set by another of the same type changes only that type's entries.
    proof fn lemma_view_replace(&self, other: &World, i: int)
        requires
            self.wf(),
            other.wf(),
            0 <= i < self.sets().len(),
            other.sets() == self.sets().update(i, other.sets()[i]),
            other.sets()[i].id() == self.sets()[i].id(),
        ensures
            forall|e: EntityId, c: ComponentId|
                c != self.sets()[i].id() ==> (#[trigger] other@.contains_key((e, c))
                    == self@.contains_key((e, c)) && (self@.contains_key((e, c)) ==> other@[(e, c)]
                    == self@[(e, c)])),
    {
        assert forall|e: EntityId, c: ComponentId|
            c != self.sets()[i].id() implies (#[trigger] other@.contains_key((e, c))
                == self@.contains_key((e, c)) && (self@.contains_key((e, c)) ==> other@[(e, c)]
                == self@[(e, c)])) by {
            let found = exists|j: int| 0 <= j < self.sets().len() && #[trigger] self.sets()[j].id() == c;
            if found {
                let j = choose|j: int| 0 <= j < self.sets().len() && #[trigger] self.sets()[j].id() == c;
                assert(j != i);
                self.lemma_view_at(j, e);
                other.lemma_view_at(j, e);
            } else {
                assert forall|j: int| 0 <= j < other.sets().len() implies #[trigger] other.sets()[j].id() != c by {
                    if j != i {
                        assert(other.sets()[j] == self.sets()[j]);
                    }
                }
            }
        }
    }

    pub fn new() -> (r: World)
        ensures
            r.wf(),
            r@ == Map::<(EntityId, ComponentId), Component>::empty(),
            r.next_id() == 0,
            r.server_map() == Map::<ServerEntityId, EntityId>::empty(),
    {
        let r = World {
            components: Vec::new(),
            server_entity_id_map: Vec::new(),
            next_entity_id: 0,
            change_tracker: GlobalComponentTracker::new(),
        };
        assert(r@ =~= Map::<(EntityId, ComponentId), Component>::empty());
        assert(r.server_map() =~= Map::<ServerEntityId, EntityId>::empty());
        r
    }

    /// Hands out the next entity number; numbers are never handed out twice.
    pub fn new_entity_id(&mut self) -> (r: EntityId)
        requires
            old(self).wf(),
            old(self).next_id() < u32::MAX,
        ensures
            r.0 == old(self).next_id(),
            final(self).next_id() == old(self).next_id() + 1,
            final(self)@ == old(self)@,
            final(self).server_map() == old(self).server_map(),
            final(self).wf(),
    {
        self.next_entity_id = self.next_entity_id + 1;
        assert(self.server_map() =~= old(self).server_map());
        assert(self.sets() == old(self).sets());
        assert(self@ =~= old(self)@);
        EntityId(self.next_entity_id - 1)
    }

    /// The position of the set bound to `component_id`, if there is one.
    fn find_set(&self, component_id: ComponentId) -> (r: Option<usize>)
        requires
            self.wf(),
        ensures
            r is Some ==> r->0 < self.sets().len() && self.sets()[r->0 as int].id() == component_id,
            r is None ==> forall|i: int| 0 <= i < self.sets().len() ==> #[trigger] self.sets()[i].id() != component_id,
    {
        let mut i: usize = 0;
        while i < self.components.len()
            invariant
                i <= self.sets().len(),
                forall|j: int| 0 <= j < i ==> #[trigger] self.sets()[j].id() != component_id,
            decreases self.components.len() - i,
        {
            if self.components[i].component_id().0 == component_id.0 {
                return Some(i);
            }
            i = i + 1;
        }
        None
    }

    pub fn get_component(&self, entity_id: EntityId, component_id: ComponentId) -> (r: Option<&Component>)
        requires
            self.wf(),
        ensures
            r is Some <==> self@.contains_key((entity_id, component_id)),
            r is Some ==> *r->0 == self@[(entity_id, component_id)],
    {
        match self.find_set(component_id) {
            Some(i) => {
                proof { self.lemma_view_at(i as int, entity_id); }
                self.components[i].get(entity_id)
            },
            None => {
                proof { self.lemma_view_missing(component_id, entity_id); }
                None
            },
        }
    }

    pub fn has_component(&self, entity_id: EntityId, component_id: ComponentId) -> (r: bool)
        requires
            self.wf(),
        ensures
            r == self@.contains_key((entity_id, component_id)),
    {
        match self.find_set(component_id) {
            Some(i) => {
                proof { self.lemma_view_at(i as int, entity_id); }
                self.components[i].has_entity(entity_id)
            },
            None => {
                proof { self.lemma_view_missing(component_id, entity_id); }
                false
            },
        }
    }

    pub fn has_entity(&self, entity_id: EntityId) -> (r: bool)
        requires
            self.wf(),
        ensures
            r == self.has_entity_spec(entity_id),
    {
        let mut i: usize = 0;
        while i < self.components.len()
            invariant
                self.wf(),
                i <= self.sets().len(),
                forall|j: int| 0 <= j < i ==> !(#[trigger] self.sets()[j])@.contains_key(entity_id.0),
            decreases self.components.len() - i,
        {
            if self.components[i].has_entity(entity_id) {
                proof { self.lemma_view_at(i as int, entity_id); }
                return true;
            }
            i = i + 1;
        }
        proof {
            assert forall|c: ComponentId| !(#[trigger] self@.contains_key((entity_id, c))) by {
                if self@.contains_key((entity_id, c)) {
                    let j = choose|j: int| 0 <= j < self.sets().len() && #[trigger] self.sets()[j].id() == c
                        && self.sets()[j]@.contains_key(entity_id.0);
                    assert(!self.sets()[j]@.contains_key(entity_id.0));
                }
            }
        }
        false
    }

    /// `lemma_view_at` for every set and entity at once, and absence for unbound types.
    proof fn lemma_view_all(&self)
        requires
            self.wf(),
        ensures
            forall|j: int, e: EntityId|
                0 <= j < self.sets().len() ==> (#[trigger] self@.contains_key((e, self.sets()[j].id()))
                    == self.sets()[j]@.contains_key(e.0)),
            forall|j: int, e: EntityId|
                0 <= j < self.sets().len() && #[trigger] self.sets()[j]@.contains_key(e.0) ==> self@[(
                    e,
                    self.sets()[j].id(),
                )] == self.sets()[j]@[e.0],
            forall|e: EntityId, c: ComponentId|
                (forall|j: int| 0 <= j < self.sets().len() ==> #[trigger] self.sets()[j].id() != c)
                    ==> !#[trigger] self@.contains_key((e, c)),
    {
        assert forall|j: int, e: EntityId| 0 <= j < self.sets().len() implies (#[trigger] self@.contains_key(
            (e, self.sets()[j].id()),
        ) == self.sets()[j]@.contains_key(e.0)) by {
            self.lemma_view_at(j, e);
        }
        assert forall|j: int, e: EntityId|
            0 <= j < self.sets().len() && #[trigger] self.sets()[j]@.contains_key(e.0) implies self@[(
                e,
                self.sets()[j].id(),
            )] == self.sets()[j]@[e.0] by {
            self.lemma_view_at(j, e);
        }
        assert forall|e: EntityId, c: ComponentId|
            (forall|j: int| 0 <= j < self.sets().len() ==> #[trigger] self.sets()[j].id() != c)
                implies !#[trigger] self@.contains_key((e, c)) by {
            self.lemma_view_missing(c, e);
        }
    }

    /// Two worlds whose sets are bound to the same types, position by position,
    /// have equal views where their sets have equal views.
    proof fn lemma_view_same_layout(&self, other: &World)
        requires
            self.wf(),
            other.wf(),
            self.sets().len() == other.sets().len(),
            forall|j: int| 0 <= j < self.sets().len() ==> #[trigger] self.sets()[j].id() == other.sets()[j].id(),
        ensures
            forall|e: EntityId, c: ComponentId|
                #[trigger] other@.contains_key((e, c)) ==> exists|j: int|
                    0 <= j < self.sets().len() && #[trigger] self.sets()[j].id() == c
                        && other.sets()[j]@.contains_key(e.0) && other@[(e, c)] == other.sets()[j]@[e.0],
    {
        self.lemma_view_all();
        other.lemma_view_all();
        assert forall|e: EntityId, c: ComponentId| #[trigger] other@.contains_key((e, c)) implies exists|j: int|
            0 <= j < self.sets().len() && #[trigger] self.sets()[j].id() == c
                && other.sets()[j]@.contains_key(e.0) && other@[(e, c)] == other.sets()[j]@[e.0] by {
            let j = choose|j: int| 0 <= j < other.sets().len() && #[trigger] other.sets()[j].id() == c
                && other.sets()[j]@.contains_key(e.0);
            assert(self.sets()[j].id() == c);
        }
    }

    /// The position of the set bound to `component_id`, made if missing.
    fn find_or_add_set(&mut self, component_id: ComponentId) -> (r: usize)
        requires
            old(self).wf(),
        ensures
            final(self).wf(),
            r < final(self).sets().len(),
            final(self).sets()[r as int].id() == component_id,
            final(self)@ == old(self)@,
            final(self).next_id() == old(self).next_id(),
            final(self).server_map() == old(self).server_map(),
    {
        match self.find_set(component_id) {
            Some(i) => i,
            None => {
                let ghost before = *self;
                self.components.push(ComponentSet::new(component_id));
                assert(self.server_map() =~= before.server_map());
                proof {
                    before.lemma_view_all();
                    self.lemma_view_all();
                    assert forall|k: (EntityId, ComponentId)| #[trigger] self@.contains_key(k) == before@.contains_key(k)
                        && (self@.contains_key(k) ==> self@[k] == before@[k]) by {
                        if k.1 == component_id {
                            let n = before.sets().len() as int;
                            assert(self.sets()[n].id() == component_id);
                            assert(!self.sets()[n]@.contains_key(k.0.0));
                        } else if exists|j: int| 0 <= j < before.sets().len() && #[trigger] before.sets()[j].id() == k.1 {
                            let j = choose|j: int| 0 <= j < before.sets().len() && #[trigger] before.sets()[j].id() == k.1;
                            assert(self.sets()[j] == before.sets()[j]);
                        } else {
                            assert forall|j: int| 0 <= j < self.sets().len() implies #[trigger] self.sets()[j].id() != k.1 by {
                                if j < before.sets().len() {
                                    assert(self.sets()[j] == before.sets()[j]);
                                }
                            }
                        }
                    }
                    assert(self@ =~= before@);
                }
                self.components.len() - 1
            },
        }
    }

    /// Stores `component` on the entity, returning the value of the same type it replaces.
    pub fn set_component(&mut self, entity_id: EntityId, component: Component) -> (r: Option<Component>)
        requires
            old(self).wf(),
        ensures
            final(self).wf(),
            final(self)@ == old(self)@.insert((entity_id, component.component_id), component),
            r == if old(self)@.contains_key((entity_id, component.component_id)) {
                Some(old(self)@[(entity_id, component.component_id)])
            } else {
                None
            },
            final(self).next_id() == old(self).next_id(),
            final(self).server_map() == old(self).server_map(),
    {
        let ghost key = (entity_id, component.component_id);
        let i = self.find_or_add_set(component.component_id);
        let ghost before = *self;
        let mut set = ComponentSet::new(component.component_id);
        self.components.set_and_swap(i, &mut set);
        let r = set.set(entity_id, component);
        self.components.set_and_swap(i, &mut set);
        proof {
            assert(self.server_map() =~= before.server_map());
            assert(self.sets() == before.sets().update(i as int, self.sets()[i as int]));
            before.lemma_view_replace(self, i as int);
            before.lemma_view_at(i as int, entity_id);
            assert forall|k: (EntityId, ComponentId)| #[trigger] self@.contains_key(k)
                == before@.insert(key, component).contains_key(k) && (self@.contains_key(k) ==> self@[k]
                == before@.insert(key, component)[k]) by {
                if k.1 == component.component_id {
                    self.lemma_view_at(i as int, k.0);
                    before.lemma_view_at(i as int, k.0);
                }
            }
            assert(self@ =~= before@.insert(key, component));
        }
        r
    }

    /// For every well-formed set that could replace set `i` with one value of
    /// entity `e` changed to `x`: the world stays well formed and its view
    /// changes in that one place.
    proof fn lemma_set_replaced(&self, i: int, e: EntityId)
        requires
            self.wf(),
            0 <= i < self.sets().len(),
        ensures
            forall|s2: ComponentSet, x: Component|
                s2.wf() && s2.id() == self.sets()[i].id() && #[trigger] s2@ == #[trigger] self.sets()[i]@.insert(e.0, x) ==> {
                    &&& storage_wf(self.components@.update(i, s2), self.server_entity_id_map@, self.next_entity_id)
                    &&& view_of_sets(self.components@.update(i, s2)) == self@.insert((e, self.sets()[i].id()), x)
                },
            forall|s2: ComponentSet| s2 == self.sets()[i] ==> #[trigger] self.components@.update(i, s2) == self.components@,
    {
        assert forall|s2: ComponentSet| s2 == self.sets()[i] implies #[trigger] self.components@.update(i, s2) == self.components@ by {
            assert(self.components@.update(i, s2) =~= self.components@);
        }
        assert forall|s2: ComponentSet, x: Component|
            s2.wf() && s2.id() == self.sets()[i].id() && #[trigger] s2@ == #[trigger] self.sets()[i]@.insert(e.0, x) implies {
                &&& storage_wf(self.components@.update(i, s2), self.server_entity_id_map@, self.next_entity_id)
                &&& view_of_sets(self.components@.update(i, s2)) == self@.insert((e, self.sets()[i].id()), x)
            } by {
            let seq2 = self.components@.update(i, s2);
            assert forall|a: int, b: int| 0 <= a < seq2.len() && 0 <= b < seq2.len() && #[trigger] seq2[a].id() == #[trigger] seq2[b].id()
                implies a == b by {
                assert(seq2[a].id() == self.sets()[a].id());
                assert(seq2[b].id() == self.sets()[b].id());
            }
            assert forall|q: int| 0 <= q < seq2.len() implies #[trigger] seq2[q].wf() by {
                if q != i {
                    assert(seq2[q] == self.sets()[q]);
                }
            }
            let v2 = view_of_sets(seq2);
            let id = self.sets()[i].id();
            self.lemma_view_all();
            assert forall|k: (EntityId, ComponentId)| #[trigger] v2.contains_key(k) == self@.insert((e, id), x).contains_key(k)
                && (v2.contains_key(k) ==> v2[k] == self@.insert((e, id), x)[k]) by {
                if k.1 == id {
                    if v2.contains_key(k) {
                        let j = choose|j: int| 0 <= j < seq2.len() && #[trigger] seq2[j].id() == k.1 && seq2[j]@.contains_key(k.0.0);
                        assert(j == i);
                    }
                    assert(seq2[i].id() == k.1);
                    if s2@.contains_key(k.0.0) {
                        assert(v2.contains_key(k));
                    }
                    let j = choose|j: int| 0 <= j < seq2.len() && #[trigger] seq2[j].id() == k.1;
                    assert(j == i);
                    assert(self@.contains_key(k) == self.sets()[i]@.contains_key(k.0.0));
                } else {
                    if v2.contains_key(k) {
                        let j = choose|j: int| 0 <= j < seq2.len() && #[trigger] seq2[j].id() == k.1 && seq2[j]@.contains_key(k.0.0);
                        assert(seq2[j] == self.sets()[j]);
                        assert(self@.contains_key((k.0, self.sets()[j].id())));
                        let j2 = choose|j: int| 0 <= j < seq2.len() && #[trigger] seq2[j].id() == k.1;
                        assert(j2 == j);
                    }
                    if self@.contains_key(k) {
                        let j = choose|j: int| 0 <= j < self.sets().len() && #[trigger] self.sets()[j].id() == k.1 && self.sets()[j]@.contains_key(k.0.0);
                        assert(seq2[j] == self.sets()[j]);
                        assert(v2.contains_key(k));
                        let j2 = choose|j: int| 0 <= j < seq2.len() && #[trigger] seq2[j].id() == k.1;
                        assert(j2 == j);
                    }
                }
            }
            assert(v2 =~= self@.insert((e, id), x));
        }
    }

    /// The contents of one component, for changing in place; its type stays.
    pub fn get_component_mut(&mut self, entity_id: EntityId, component_id: ComponentId) -> (r: Option<&mut ComponentData>)
        requires
            old(self).wf(),
        ensures
            r is Some <==> old(self)@.contains_key((entity_id, component_id)),
            r is Some ==> *r->0 == old(self)@[(entity_id, component_id)].data,
            final(self).wf(),
            final(self).next_id() == old(self).next_id(),
            final(self).server_map() == old(self).server_map(),
            r is None ==> final(self)@ == old(self)@,
            r is Some ==> final(self)@ == old(self)@.insert(
                (entity_id, component_id),
                Component { component_id, data: *final(r->0) },
            ),
    {
        proof {
            self.lemma_stored_ids();
        }
        match self.find_set(component_id) {
            None => {
                proof { self.lemma_view_missing(component_id, entity_id); }
                None
            },
            Some(i) => {
                proof {
                    self.lemma_view_at(i as int, entity_id);
                    self.lemma_set_replaced(i as int, entity_id);
                    self.sets()[i as int].lemma_ids();
                }
                let set = &mut self.components[i];
                set.get_mut(entity_id)
            },
        }
    }

    /// Removes one component of the entity and returns it.
    pub fn delete_component(&mut self, entity_id: EntityId, component_id: ComponentId) -> (r: Option<Component>)
        requires
            old(self).wf(),
        ensures
            final(self).wf(),
            final(self)@ == old(self)@.remove((entity_id, component_id)),
            r == if old(self)@.contains_key((entity_id, component_id)) {
                Some(old(self)@[(entity_id, component_id)])
            } else {
                None
            },
            final(self).next_id() == old(self).next_id(),
            final(self).server_map() == old(self).server_map(),
    {
        let ghost key = (entity_id, component_id);
        match self.find_set(component_id) {
            None => {
                proof { self.lemma_view_missing(component_id, entity_id); }
                assert(self@.remove(key) =~= self@);
                None
            },
            Some(i) => {
                let ghost before = *self;
                let mut set = ComponentSet::new(component_id);
                self.components.set_and_swap(i, &mut set);
                let r = set.delete(entity_id);
                self.components.set_and_swap(i, &mut set);
                proof {
                    assert(self.server_map() =~= before.server_map());
                    assert(self.sets() == before.sets().update(i as int, self.sets()[i as int]));
                    before.lemma_view_replace(self, i as int);
                    before.lemma_view_at(i as int, entity_id);
                    assert forall|k: (EntityId, ComponentId)| #[trigger] self@.contains_key(k)
                        == before@.remove(key).contains_key(k) && (self@.contains_key(k) ==> self@[k]
                        == before@.remove(key)[k]) by {
                        if k.1 == component_id {
                            self.lemma_view_at(i as int, k.0);
                            before.lemma_view_at(i as int, k.0);
                        }
                    }
                    assert(self@ =~= before@.remove(key));
                }
                r
            },
        }
    }

    /// Removes every component of the entity; returns whether it had any.
    pub fn delete_entity(&mut self, entity_id: EntityId) -> (r: bool)
        requires
            old(self).wf(),
        ensures
            final(self).wf(),
            r == old(self).has_entity_spec(entity_id),
            final(self)@ == old(self)@.remove_keys(
                Set::new(|k: (EntityId, ComponentId)| k.0 == entity_id),
            ),
            !final(self).has_entity_spec(entity_id),
            final(self).next_id() == old(self).next_id(),
            final(self).server_map() == old(self).server_map(),
    {
        let ghost before = *self;
        let mut found = false;
        let mut i: usize = 0;
        while i < self.components.len()
            invariant
                self.wf(),
                i <= self.sets().len(),
                self.sets().len() == before.sets().len(),
                self.next_entity_id == before.next_entity_id,
                self.server_entity_id_map == before.server_entity_id_map,
                forall|j: int| 0 <= j < self.sets().len() ==> #[trigger] self.sets()[j].id() == before.sets()[j].id(),
                forall|j: int| i <= j < self.sets().len() ==> #[trigger] self.sets()[j] == before.sets()[j],
                forall|j: int| 0 <= j < i ==> (#[trigger] self.sets()[j])@ == before.sets()[j]@.remove(entity_id.0),
                found == exists|j: int| 0 <= j < i && (#[trigger] before.sets()[j])@.contains_key(entity_id.0),
            decreases self.components.len() - i,
        {
            let ghost prev = *self;
            let placeholder_id = self.components[i].component_id();
            let mut set = ComponentSet::new(placeholder_id);
            self.components.set_and_swap(i, &mut set);
            let deleted = set.delete(entity_id);
            if deleted.is_some() {
                found = true;
            }
            let ghost modified = set;
            self.components.set_and_swap(i, &mut set);
            proof {
                assert(self.sets() =~= prev.sets().update(i as int, modified));
                assert forall|a: int, b: int|
                    0 <= a < self.sets().len() && 0 <= b < self.sets().len() && #[trigger] self.sets()[a].id()
                        == #[trigger] self.sets()[b].id() implies a == b by {
                    assert(self.sets()[a].id() == prev.sets()[a].id());
                    assert(self.sets()[b].id() == prev.sets()[b].id());
                }
                assert(found == exists|j: int| 0 <= j < i + 1 && (#[trigger] before.sets()[j])@.contains_key(entity_id.0)) by {
                    if deleted.is_some() {
                        assert(before.sets()[i as int]@.contains_key(entity_id.0));
                    }
                }
            }
            i = i + 1;
        }
        proof {
            before.lemma_view_all();
            self.lemma_view_all();
            before.lemma_view_same_layout(self);
            self.lemma_view_same_layout(&before);
            let gone = Set::new(|k: (EntityId, ComponentId)| k.0 == entity_id);
            assert forall|k: (EntityId, ComponentId)| #[trigger] self@.contains_key(k)
                == before@.remove_keys(gone).contains_key(k) && (self@.contains_key(k) ==> self@[k]
                == before@.remove_keys(gone)[k]) by {
                if self@.contains_key(k) {
                    let j = choose|j: int| 0 <= j < self.sets().len() && #[trigger] before.sets()[j].id() == k.1
                        && self.sets()[j]@.contains_key(k.0.0) && self@[k] == self.sets()[j]@[k.0.0];
                    assert(self.sets()[j].id() == k.1);
                    assert(self@.contains_key((k.0, self.sets()[j].id())));
                }
                if before@.contains_key(k) && k.0 != entity_id {
                    let j = choose|j: int| 0 <= j < before.sets().len() && #[trigger] self.sets()[j].id() == k.1
                        && before.sets()[j]@.contains_key(k.0.0) && before@[k] == before.sets()[j]@[k.0.0];
                    assert(before.sets()[j].id() == k.1);
                    assert(self.sets()[j]@.contains_key(k.0.0));
                }
            }
            assert(self@ =~= before@.remove_keys(gone));
            assert(self.server_map() =~= before.server_map());
            if found {
                let j = choose|j: int| 0 <= j < self.sets().len() && (#[trigger] before.sets()[j])@.contains_key(entity_id.0);
                assert(before@.contains_key((entity_id, before.sets()[j].id())));
            }
            if before.has_entity_spec(entity_id) {
                let c = choose|c: ComponentId| #[trigger] before@.contains_key((entity_id, c));
                let j = choose|j: int| 0 <= j < before.sets().len() && #[trigger] self.sets()[j].id() == c
                    && before.sets()[j]@.contains_key(entity_id.0) && before@[(entity_id, c)] == before.sets()[j]@[entity_id.0];
                assert(before.sets()[j]@.contains_key(entity_id.0));
            }
            assert forall|c: ComponentId| !#[trigger] self@.contains_key((entity_id, c)) by {}
        }
        found
    }

    /// Whether set `j` takes part in bounding a scan for `with`: every set when
    /// `with` is empty, else the sets of the listed types.
    closed spec fn bounds_scan(&self, with: Seq<ComponentId>, j: int) -> bool {
        with.len() == 0 || with.contains(self.sets()[j].id())
    }

    /// The largest index length among the sets that bound a scan for `with`, or
    /// zero when there is none. No entity at or beyond it can satisfy `with`.
    fn required_iter_upper_bound(&self, with: &[ComponentId]) -> (r: usize)
        requires
            self.wf(),
        ensures
            r <= u32::MAX as nat + 1,
            forall|e: EntityId|
                #[trigger] self.matches_query(e, with@, Seq::empty()) ==> (e.0 as nat) < r,
            forall|j: int| 0 <= j < self.sets().len() && self.bounds_scan(with@, j) ==> #[trigger] self.sets()[j].bound() <= r,
            r == 0 || exists|j: int| 0 <= j < self.sets().len() && self.bounds_scan(with@, j) && #[trigger] self.sets()[j].bound() == r,
    {
        let mut bound: usize = 0;
        proof { self.lemma_view_all(); }
        if with.len() == 0 {
            let mut i: usize = 0;
            while i < self.components.len()
                invariant
                    self.wf(),
                    with@.len() == 0,
                    i <= self.sets().len(),
                    bound <= u32::MAX as nat + 1,
                    forall|j: int, e: u32| 0 <= j < i && #[trigger] self.sets()[j]@.contains_key(e) ==> (e as nat) < bound,
                    forall|j: int| 0 <= j < i ==> #[trigger] self.sets()[j].bound() <= bound,
                    bound == 0 || exists|j: int| 0 <= j < i && #[trigger] self.sets()[j].bound() == bound,
                decreases self.components.len() - i,
            {
                let len = self.components[i].index_len();
                if len > bound {
                    bound = len;
                }
                i = i + 1;
            }
            proof {
                assert forall|e: EntityId| #[trigger] self.matches_query(e, with@, Seq::empty()) implies (e.0 as nat) < bound by {
                    let c = choose|c: ComponentId| #[trigger] self@.contains_key((e, c));
                    let j = choose|j: int| 0 <= j < self.sets().len() && #[trigger] self.sets()[j].id() == c
                        && self.sets()[j]@.contains_key(e.0);
                }
                assert forall|j: int| 0 <= j < self.sets().len() && self.bounds_scan(with@, j) implies #[trigger] self.sets()[j].bound() <= bound by {}
                if bound != 0 {
                    let j = choose|j: int| 0 <= j < i && #[trigger] self.sets()[j].bound() == bound;
                    assert(self.bounds_scan(with@, j));
                }
            }
        } else {
            let mut k: usize = 0;
            while k < with.len()
                invariant
                    self.wf(),
                    k <= with@.len(),
                    bound <= u32::MAX as nat + 1,
                    with@.len() > 0,
                    forall|e: EntityId| k > 0 && self@.contains_key((e, with@[0])) ==> (e.0 as nat) < bound,
                    forall|j: int| 0 <= j < self.sets().len() && with@.subrange(0, k as int).contains(self.sets()[j].id())
                        ==> #[trigger] self.sets()[j].bound() <= bound,
                    bound == 0 || exists|j: int| 0 <= j < self.sets().len() && with@.subrange(0, k as int).contains(self.sets()[j].id())
                        && #[trigger] self.sets()[j].bound() == bound,
                decreases with.len() - k,
            {
                let ghost old_bound = bound;
                let found = self.find_set(with[k]);
                match found {
                    Some(i) => {
                        let len = self.components[i].index_len();
                        if len > bound {
                            bound = len;
                        }
                        proof {
                            if k == 0 {
                                assert forall|e: EntityId| self@.contains_key((e, with@[0])) implies (e.0 as nat) < bound by {
                                    self.lemma_view_at(i as int, e);
                                }
                            }
                        }
                    },
                    None => {
                        proof {
                            assert forall|e: EntityId| !self@.contains_key((e, with@[k as int])) by {
                                self.lemma_view_missing(with@[k as int], e);
                            }
                        }
                    },
                }
                proof {
                    let pre = with@.subrange(0, k as int);
                    let post = with@.subrange(0, k + 1);
                    assert(post =~= pre.push(with@[k as int]));
                    assert forall|j: int| 0 <= j < self.sets().len() && post.contains(self.sets()[j].id())
                        implies #[trigger] self.sets()[j].bound() <= bound by {
                        if !pre.contains(self.sets()[j].id()) {
                            let q = choose|q: int| 0 <= q < post.len() && post[q] == self.sets()[j].id();
                            assert(q == k);
                            assert(self.sets()[j].id() == with@[k as int]);
                            match found {
                                Some(i) => {
                                    assert(self.sets()[i as int].id() == self.sets()[j].id());
                                    assert(i == j);
                                },
                                None => {
                                    assert(self.sets()[j].id() != with@[k as int]);
                                },
                            }
                        }
                    }
                    if bound != 0 {
                        if bound != old_bound {
                            let i = found->0;
                            assert(self.sets()[i as int].bound() == bound);
                            assert(post[k as int] == self.sets()[i as int].id());
                            assert(post.contains(self.sets()[i as int].id()));
                        } else {
                            let j = choose|j: int| 0 <= j < self.sets().len() && pre.contains(self.sets()[j].id())
                                && #[trigger] self.sets()[j].bound() == bound;
                            let q = choose|q: int| 0 <= q < pre.len() && pre[q] == self.sets()[j].id();
                            assert(post[q] == pre[q]);
                            assert(post.contains(self.sets()[j].id()));
                        }
                    }
                }
                k = k + 1;
            }
            proof {
                assert(with@.subrange(0, with@.len() as int) =~= with@);
                assert forall|e: EntityId| #[trigger] self.matches_query(e, with@, Seq::empty()) implies (e.0 as nat) < bound by {
                    assert(self@.contains_key((e, with@[0])));
                }
            }
        }
        bound
    }

    /// The entity's `with` components, in order, if it satisfies the query.
    pub fn query_one(&self, entity_id: EntityId, with: &[ComponentId], without: &[ComponentId]) -> (r:
        Option<Vec<&Component>>)
        requires
            self.wf(),
        ensures
            r is Some <==> self.matches_query(entity_id, with@, without@),
            r is Some ==> self.query_components(entity_id, with@, r->0@),
    {
        if with.len() == 0 && !self.has_entity(entity_id) {
            return None;
        }
        let mut k: usize = 0;
        while k < without.len()
            invariant
                self.wf(),
                k <= without@.len(),
                forall|j: int| 0 <= j < k ==> !self@.contains_key((entity_id, #[trigger] without@[j])),
            decreases without.len() - k,
        {
            if self.has_component(entity_id, without[k]) {
                return None;
            }
            k = k + 1;
        }
        let mut found: Vec<&Component> = Vec::new();
        let mut k: usize = 0;
        while k < with.len()
            invariant
                self.wf(),
                k <= with@.len(),
                found@.len() == k,
                forall|j: int| 0 <= j < k ==> self@.contains_key((entity_id, #[trigger] with@[j])),
                forall|j: int| 0 <= j < k ==> *#[trigger] found@[j] == self@[(entity_id, with@[j])],
            decreases with.len() - k,
        {
            match self.get_component(entity_id, with[k]) {
                Some(c) => found.push(c),
                None => return None,
            }
            k = k + 1;
        }
        Some(found)
    }

    /// Every entity satisfying the query, in increasing order, each with its
    /// `with` components.
    pub fn query(&self, with: &[ComponentId], without: &[ComponentId]) -> (r: Vec<(EntityId, Vec<&Component>)>)
        requires
            self.wf(),
        ensures
            forall|a: int, b: int| 0 <= a < b < r@.len() ==> r@[a].0.0 < r@[b].0.0,
            forall|k: int| 0 <= k < r@.len() ==> self.matches_query(#[trigger] r@[k].0, with@, without@)
                && self.query_components(r@[k].0, with@, r@[k].1@),
            forall|e: EntityId| self.matches_query(e, with@, without@) ==> exists|k: int|
                0 <= k < r@.len() && #[trigger] r@[k].0 == e,
            self.is_query_result(with@, without@, r@.map_values(|p: (EntityId, Vec<&Component>)| p.0)),
    {
        let upper_bound = self.required_iter_upper_bound(with);
        let mut r: Vec<(EntityId, Vec<&Component>)> = Vec::new();
        let mut i: usize = 0;
        while i < upper_bound
            invariant
                self.wf(),
                i <= upper_bound,
                upper_bound <= u32::MAX as nat + 1,
                forall|e: EntityId| #[trigger] self.matches_query(e, with@, Seq::empty()) ==> (e.0 as nat) < upper_bound,
                forall|a: int, b: int| 0 <= a < b < r@.len() ==> r@[a].0.0 < r@[b].0.0,
                forall|k: int| 0 <= k < r@.len() ==> (r@[k].0.0 as nat) < i,
                forall|k: int| 0 <= k < r@.len() ==> self.matches_query(#[trigger] r@[k].0, with@, without@)
                    && self.query_components(r@[k].0, with@, r@[k].1@),
                forall|e: EntityId| (e.0 as nat) < i && self.matches_query(e, with@, without@) ==> exists|k: int|
                    0 <= k < r@.len() && #[trigger] r@[k].0 == e,
            decreases upper_bound - i,
        {
            let entity_id = EntityId(i as u32);
            match self.query_one(entity_id, with, without) {
                Some(found) => {
                    let ghost prev = r@;
                    r.push((entity_id, found));
                    proof {
                        let n = r@.len() - 1;
                        assert(r@[n].0 == entity_id);
                        assert forall|e: EntityId| (e.0 as nat) < i + 1 && self.matches_query(e, with@, without@) implies exists|k: int|
                            0 <= k < r@.len() && #[trigger] r@[k].0 == e by {
                            if e.0 as nat == i {
                                assert(e == entity_id);
                            } else {
                                let k = choose|k: int| 0 <= k < prev.len() && #[trigger] prev[k].0 == e;
                                assert(r@[k] == prev[k]);
                            }
                        }
                    }
                },
                None => {
                    proof {
                        assert forall|e: EntityId| (e.0 as nat) < i + 1 && self.matches_query(e, with@, without@) implies exists|k: int|
                            0 <= k < r@.len() && #[trigger] r@[k].0 == e by {
                            if e.0 as nat == i {
                                assert(e == entity_id);
                            }
                        }
                    }
                },
            }
            i = i + 1;
        }
        proof {
            assert forall|e: EntityId| self.matches_query(e, with@, without@) implies (e.0 as nat) < upper_bound by {
                assert(self.matches_query(e, with@, Seq::empty()));
            }
            let ids = r@.map_values(|p: (EntityId, Vec<&Component>)| p.0);
            assert forall|e: EntityId| #[trigger] ids.contains(e) == self.matches_query(e, with@, without@) by {
                if ids.contains(e) {
                    let k = choose|k: int| 0 <= k < ids.len() && ids[k] == e;
                    assert(r@[k].0 == e);
                }
                if self.matches_query(e, with@, without@) {
                    let k = choose|k: int| 0 <= k < r@.len() && #[trigger] r@[k].0 == e;
                    assert(ids[k] == e);
                }
            }
        }
        r
    }

    /// Every stored component carries the id of the type it is stored under.
    pub proof fn lemma_stored_ids(&self)
        requires
            self.wf(),
        ensures
            forall|k: (EntityId, ComponentId)| #[trigger] self@.contains_key(k) ==> self@[k].component_id == k.1,
    {
        assert forall|k: (EntityId, ComponentId)| #[trigger] self@.contains_key(k) implies self@[k].component_id == k.1 by {
            let j = choose|j: int| 0 <= j < self.sets().len() && #[trigger] self.sets()[j].id() == k.1
                && self.sets()[j]@.contains_key(k.0.0);
            self.lemma_view_at(j, k.0);
            self.sets()[j].lemma_ids();
        }
    }

    /// The entity's components, or only its serializable ones.
    fn collect_components(&self, entity_id: EntityId, serializable_only: bool) -> (r: Vec<&Component>)
        requires
            self.wf(),
        ensures
            self.lists_components(entity_id, r@, |c: Component| !serializable_only || c.serializable()),
    {
        let ghost keep = |c: Component| !serializable_only || c.serializable();
        let mut r: Vec<&Component> = Vec::new();
        let mut i: usize = 0;
        proof { self.lemma_view_all(); self.lemma_stored_ids(); }
        while i < self.components.len()
            invariant
                self.wf(),
                i <= self.sets().len(),
                keep == (|c: Component| !serializable_only || c.serializable()),
                forall|j: int, e: EntityId|
                    0 <= j < self.sets().len() ==> (#[trigger] self@.contains_key((e, self.sets()[j].id()))
                        == self.sets()[j]@.contains_key(e.0)),
                forall|k: (EntityId, ComponentId)| #[trigger] self@.contains_key(k) ==> self@[k].component_id == k.1,
                forall|k: int|
                    0 <= k < r@.len() ==> self@.contains_key((entity_id, (#[trigger] r@[k]).component_id))
                        && *r@[k] == self@[(entity_id, r@[k].component_id)] && keep(*r@[k]),
                forall|k: int| 0 <= k < r@.len() ==> exists|j: int| 0 <= j < i && (#[trigger] r@[k]).component_id == self.sets()[j].id(),
                forall|j: int|
                    0 <= j < i && self@.contains_key((entity_id, (#[trigger] self.sets()[j]).id()))
                        && keep(self@[(entity_id, self.sets()[j].id())]) ==> exists|k: int|
                        0 <= k < r@.len() && (#[trigger] r@[k]).component_id == self.sets()[j].id(),
                forall|a: int, b: int|
                    0 <= a < b < r@.len() ==> r@[a].component_id != r@[b].component_id,
            decreases self.components.len() - i,
        {
            proof { self.lemma_view_at(i as int, entity_id); }
            match self.components[i].get(entity_id) {
                Some(c) => {
                    if !serializable_only || c.is_serializable() {
                        let ghost prev = r@;
                        proof {
                            assert(c.component_id == self.sets()[i as int].id());
                            assert forall|k: int| 0 <= k < prev.len() implies prev[k].component_id != c.component_id by {
                                let j = choose|j: int| 0 <= j < i && (#[trigger] prev[k]).component_id == self.sets()[j].id();
                            }
                        }
                        r.push(c);
                        proof {
                            assert forall|k: int| 0 <= k < r@.len() implies exists|j: int| 0 <= j < i + 1 && (#[trigger] r@[k]).component_id == self.sets()[j].id() by {
                                if k < prev.len() {
                                    assert(r@[k] == prev[k]);
                                    let j = choose|j: int| 0 <= j < i && (#[trigger] prev[k]).component_id == self.sets()[j].id();
                                    assert(0 <= j < i + 1 && r@[k].component_id == self.sets()[j].id());
                                } else {
                                    assert(r@[k].component_id == self.sets()[i as int].id());
                                }
                            }
                            assert forall|j: int|
                                0 <= j < i + 1 && self@.contains_key((entity_id, (#[trigger] self.sets()[j]).id()))
                                    && keep(self@[(entity_id, self.sets()[j].id())]) implies exists|k: int|
                                    0 <= k < r@.len() && (#[trigger] r@[k]).component_id == self.sets()[j].id() by {
                                if j < i {
                                    let k = choose|k: int| 0 <= k < prev.len() && (#[trigger] prev[k]).component_id == self.sets()[j].id();
                                    assert(r@[k] == prev[k]);
                                } else {
                                    assert(r@[prev.len() as int] == c);
                                }
                            }
                        }
                    }
                },
                None => {},
            }
            i = i + 1;
        }
        proof {
            assert forall|c: ComponentId|
                #[trigger] self@.contains_key((entity_id, c)) && keep(self@[(entity_id, c)]) implies exists|k: int|
                    0 <= k < r@.len() && (#[trigger] r@[k]).component_id == c by {
                let j = choose|j: int| 0 <= j < self.sets().len() && #[trigger] self.sets()[j].id() == c
                    && self.sets()[j]@.contains_key(entity_id.0);
                assert(self@.contains_key((entity_id, self.sets()[j].id())));
            }
        }
        r
    }

    /// All components of the entity, without repeats.
    pub fn get_all_components(&self, entity_id: EntityId) -> (r: Vec<&Component>)
        requires
            self.wf(),
        ensures
            self.lists_components(entity_id, r@, |c: Component| true),
    {
        let r = self.collect_components(entity_id, false);
        proof {
            assert((|c: Component| !false || c.serializable()) =~= (|c: Component| true));
        }
        r
    }

    /// The serializable components of the entity, without repeats.
    pub fn get_all_serializable_components(&self, entity_id: EntityId) -> (r: Vec<&Component>)
        requires
            self.wf(),
        ensures
            self.lists_components(entity_id, r@, |c: Component| c.serializable()),
    {
        let r = self.collect_components(entity_id, true);
        proof {
            assert((|c: Component| !true || c.serializable()) =~= (|c: Component| c.serializable()));
        }
        r
    }

    /// The channel of change events for one (entity, component) pair, made on
    /// the first request for it.
    pub fn get_component_changed_event_sender(&mut self, entity_id: EntityId, component_id: ComponentId) -> (r:
        &EventSender<ComponentTrackerEvent>)
        requires
            old(self).wf(),
        ensures
            final(self).wf(),
            final(self)@ == old(self)@,
            final(self).next_id() == old(self).next_id(),
            final(self).server_map() == old(self).server_map(),
            final(self).tracker().tracks(entity_id, component_id),
            *r == final(self).tracker().entries()[final(self).tracker().pair_index(entity_id, component_id)].sender,
            old(self).tracker().tracks(entity_id, component_id) ==> final(self).tracker().entries() == old(self).tracker().entries(),
            !old(self).tracker().tracks(entity_id, component_id) ==> final(self).tracker().entries().len()
                == old(self).tracker().entries().len() + 1 && final(self).tracker().entries().subrange(
                0,
                old(self).tracker().entries().len() as int,
            ) == old(self).tracker().entries() && GlobalComponentTracker::fresh_entry(
                final(self).tracker().entries()[final(self).tracker().pair_index(entity_id, component_id)],
                entity_id,
                component_id,
            ),
    {
        proof {
            assert(self.server_map() == old(self).server_map());
        }
        self.change_tracker.get_event_sender(entity_id, component_id)
    }

    /// Subscribes to one pair's change events; see `GlobalComponentTracker::subscribe`.
    pub fn subscribe_component_changes(&mut self, entity_id: EntityId, component_id: ComponentId) -> (r: EventReceiver)
        requires
            old(self).wf(),
        ensures
            final(self).wf(),
            final(self)@ == old(self)@,
            final(self).next_id() == old(self).next_id(),
            final(self).server_map() == old(self).server_map(),
            final(self).tracker().tracks(entity_id, component_id),
            r.cursor() == final(self).tracker().entries()[final(self).tracker().pair_index(entity_id, component_id)].sender.next(),
    {
        let r = self.change_tracker.subscribe(entity_id, component_id);
        proof {
            assert(self.sets() == old(self).sets());
            assert(self@ =~= old(self)@);
            assert(self.server_map() =~= old(self).server_map());
        }
        r
    }

    /// Forgets stale pairs and updates every remaining tracker against this world.
    pub fn update_change_tracker(&mut self, now: u64)
        requires
            old(self).wf(),
        ensures
            final(self).wf(),
            final(self)@ == old(self)@,
            final(self).next_id() == old(self).next_id(),
            final(self).server_map() == old(self).server_map(),
            forall|k: int| 0 <= k < final(self).tracker().entries().len() ==> stepped_from_live(
                old(self).tracker().entries(),
                #[trigger] final(self).tracker().entries()[k],
                *old(self),
            ),
            forall|j: int| 0 <= j < old(self).tracker().entries().len() && live(old(self).tracker().entries()[j], *old(self))
                ==> stepped_into(#[trigger] old(self).tracker().entries()[j], final(self).tracker().entries(), *old(self)),
    {
        let mut tracker = GlobalComponentTracker::new();
        std::mem::swap(&mut tracker, &mut self.change_tracker);
        let ghost world = *self;
        proof {
            world_without_tracker_wf(*old(self), world);
        }
        tracker.update(self, now);
        let ghost updated = tracker;
        std::mem::swap(&mut tracker, &mut self.change_tracker);
        proof {
            assert(self.sets() == old(self).sets());
            assert(self@ =~= old(self)@);
            assert(self.server_map() =~= old(self).server_map());
            lemma_same_world_view(world, *old(self));
            assert forall|k: int| 0 <= k < self.tracker().entries().len() implies stepped_from_live(
                old(self).tracker().entries(),
                #[trigger] self.tracker().entries()[k],
                *old(self),
            ) by {
                assert(stepped_from_live(old(self).tracker().entries(), updated.entries()[k], world));
            }
            assert forall|j: int| 0 <= j < old(self).tracker().entries().len() && live(old(self).tracker().entries()[j], *old(self))
                implies stepped_into(#[trigger] old(self).tracker().entries()[j], self.tracker().entries(), *old(self)) by {
                assert(live(old(self).tracker().entries()[j], world));
            }
        }
    }

    /// Updates the trackers of one entity, or of one (entity, component) pair,
    /// against this world.
    pub fn update_entity_change_tracker(&mut self, entity_id: EntityId, component_id: Option<ComponentId>, now: u64)
        requires
            old(self).wf(),
        ensures
            final(self).wf(),
            final(self)@ == old(self)@,
            final(self).next_id() == old(self).next_id(),
            final(self).server_map() == old(self).server_map(),
            final(self).tracker().entries().len() == old(self).tracker().entries().len(),
            forall|k: int| 0 <= k < old(self).tracker().entries().len() && selected(old(self).tracker().entries()[k], entity_id, component_id)
                ==> #[trigger] entry_stepped(old(self).tracker().entries()[k], final(self).tracker().entries()[k], *old(self)),
            forall|k: int| 0 <= k < old(self).tracker().entries().len() && !selected(old(self).tracker().entries()[k], entity_id, component_id)
                ==> #[trigger] final(self).tracker().entries()[k] == old(self).tracker().entries()[k],
    {
        let mut tracker = GlobalComponentTracker::new();
        std::mem::swap(&mut tracker, &mut self.change_tracker);
        let ghost world = *self;
        proof {
            world_without_tracker_wf(*old(self), world);
        }
        match component_id {
            Some(c) => tracker.update_entity_component(self, entity_id, c, now),
            None => tracker.update_entity(self, entity_id, now),
        }
        std::mem::swap(&mut tracker, &mut self.change_tracker);
        proof {
            assert(self.sets() == old(self).sets());
            assert(self@ =~= old(self)@);
            assert(self.server_map() =~= old(self).server_map());
            lemma_same_world_view(world, *old(self));
            assert forall|k: int| 0 <= k < old(self).tracker().entries().len() && selected(old(self).tracker().entries()[k], entity_id, component_id)
                implies #[trigger] entry_stepped(old(self).tracker().entries()[k], self.tracker().entries()[k], *old(self)) by {
                assert(entry_stepped(old(self).tracker().entries()[k], self.tracker().entries()[k], world));
            }
        }
    }

    /// The local entity standing for a server entity, numbered on first sight.
    pub fn entity_id_from_server(&mut self, server_entity_id: ServerEntityId) -> (r: EntityId)
        requires
            old(self).wf(),
            old(self).server_map().contains_key(server_entity_id) || old(self).next_id() < u32::MAX,
        ensures
            final(self).wf(),
            final(self)@ == old(self)@,
            final(self).server_map() == old(self).server_map().insert(server_entity_id, r),
            old(self).server_map().contains_key(server_entity_id) ==> r == old(self).server_map()[server_entity_id]
                && final(self).next_id() == old(self).next_id(),
            !old(self).server_map().contains_key(server_entity_id) ==> r.0 == old(self).next_id()
                && final(self).next_id() == old(self).next_id() + 1,
            final(self).server_map_sound(),
    {
        let ghost before = *self;
        let mut i: usize = 0;
        while i < self.server_entity_id_map.len()
            invariant
                *self == before,
                self.wf(),
                i <= self.server_entity_id_map@.len(),
                forall|j: int| 0 <= j < i ==> (#[trigger] self.server_entity_id_map@[j]).0 != server_entity_id,
            decreases self.server_entity_id_map.len() - i,
        {
            let (s, e) = self.server_entity_id_map[i];
            if s.0.0 == server_entity_id.0.0 {
                proof {
                    assert(self.server_entity_id_map@[i as int].0 == server_entity_id);
                    let k = choose|k: int| 0 <= k < self.server_entity_id_map@.len() && #[trigger] self.server_entity_id_map@[k].0 == server_entity_id;
                    assert(k == i);
                    assert(self.server_map()[server_entity_id] == e);
                    assert(self.server_map().insert(server_entity_id, e) =~= self.server_map());
                    self.lemma_server_map_sound();
                }
                return e;
            }
            i = i + 1;
        }
        self.next_entity_id = self.next_entity_id + 1;
        let entity_id = EntityId(self.next_entity_id - 1);
        self.server_entity_id_map.push((server_entity_id, entity_id));
        proof {
            let n = before.server_entity_id_map@.len() as int;
            assert forall|i: int, j: int|
                0 <= i < self.server_entity_id_map@.len() && 0 <= j < self.server_entity_id_map@.len()
                    && #[trigger] self.server_entity_id_map@[i].1 == #[trigger] self.server_entity_id_map@[j].1
                    implies i == j by {
                if i < n && j < n {
                    assert(self.server_entity_id_map@[i] == before.server_entity_id_map@[i]);
                    assert(self.server_entity_id_map@[j] == before.server_entity_id_map@[j]);
                } else if i < n {
                    assert(self.server_entity_id_map@[i] == before.server_entity_id_map@[i]);
                } else if j < n {
                    assert(self.server_entity_id_map@[j] == before.server_entity_id_map@[j]);
                }
            }
            assert forall|i: int| 0 <= i < self.server_entity_id_map@.len() implies (#[trigger] self.server_entity_id_map@[i]).1.0 < self.next_entity_id by {
                if i < n {
                    assert(self.server_entity_id_map@[i] == before.server_entity_id_map@[i]);
                }
            }
            assert(self.sets() == before.sets());
            assert(self@ =~= before@);
            assert forall|s: ServerEntityId| #[trigger] self.server_map().contains_key(s)
                == before.server_map().insert(server_entity_id, entity_id).contains_key(s) && (self.server_map().contains_key(s)
                ==> self.server_map()[s] == before.server_map().insert(server_entity_id, entity_id)[s]) by {
                let n = before.server_entity_id_map@.len() as int;
                if s == server_entity_id {
                    assert(self.server_entity_id_map@[n].0 == s);
                    let k = choose|k: int| 0 <= k < self.server_entity_id_map@.len() && #[trigger] self.server_entity_id_map@[k].0 == s;
                    assert(k == n);
                } else if self.server_map().contains_key(s) {
                    let k = choose|k: int| 0 <= k < self.server_entity_id_map@.len() && #[trigger] self.server_entity_id_map@[k].0 == s;
                    assert(before.server_entity_id_map@[k].0 == s);
                    let k2 = choose|k: int| 0 <= k < before.server_entity_id_map@.len() && #[trigger] before.server_entity_id_map@[k].0 == s;
                    assert(self.server_entity_id_map@[k2].0 == s);
                } else if before.server_map().contains_key(s) {
                    let k2 = choose|k: int| 0 <= k < before.server_entity_id_map@.len() && #[trigger] before.server_entity_id_map@[k].0 == s;
                    assert(self.server_entity_id_map@[k2].0 == s);
                }
            }
            assert(self.server_map() =~= before.server_map().insert(server_entity_id, entity_id));
            self.lemma_server_map_sound();
        }
        entity_id
    }

    /// Applies a command received from the server to the entity it names here.
    pub fn execute_net_command(&mut self, command: NetEcsCommand)
        requires
            old(self).wf(),
            old(self).server_map().contains_key(command.target()) || old(self).next_id() < u32::MAX,
        ensures
            final(self).wf(),
            final(self).server_map().contains_key(command.target()),
            final(self).server_map() == old(self).server_map().insert(
                command.target(),
                final(self).server_map()[command.target()],
            ),
            old(self).server_map().contains_key(command.target()) ==> final(self).server_map()[command.target()]
                == old(self).server_map()[command.target()],
            !old(self).server_map().contains_key(command.target()) ==> final(self).server_map()[command.target()].0
                == old(self).next_id(),
            final(self)@ == old(self).applied(final(self).server_map()[command.target()], command),
    {
        let entity_id = self.entity_id_from_server(command.server_entity_id());
        let ghost mid = *self;
        match command {
            NetEcsCommand::SetComponent(_, component) => {
                self.set_component(entity_id, component);
            },
            NetEcsCommand::DeleteComponent(_, component_id) => {
                self.delete_component(entity_id, component_id);
            },
            NetEcsCommand::DeleteEntity(_) => {
                self.delete_entity(entity_id);
            },
        }
    }

    /// Applies a component write that a client sent, where the entity's
    /// policy lets that client write that component; ignores it otherwise.
    pub fn execute_client_net_command(&mut self, client_id: ClientId, command: NetEcsCommand)
        requires
            old(self).wf(),
        ensures
            final(self).wf(),
            final(self).next_id() == old(self).next_id(),
            final(self).server_map() == old(self).server_map(),
            final(self)@ == match command {
                NetEcsCommand::SetComponent(s, c) => if old(self).client_may_write(client_id, s.0, c) {
                    old(self)@.insert((s.0, c.component_id), c)
                } else {
                    old(self)@
                },
                _ => old(self)@,
            },
    {
        if let NetEcsCommand::SetComponent(server_entity_id, component) = command {
            let entity_id = server_entity_id.0;
            let replicate_id = Replicate::component_type_id();
            if component.component_id.0 == replicate_id.0 {
                return;
            }
            let allowed = match self.get_component(entity_id, replicate_id) {
                Some(c) => match c.as_replicate() {
                    Some(replicate) => {
                        match replicate.owner {
                            Some(owner) => owner.0 == client_id.0 && replicate.client_writable.contains(&component.component_id),
                            None => false,
                        }
                    },
                    None => false,
                },
                None => false,
            };
            if allowed {
                self.set_component(entity_id, component);
            }
        }
    }
}

/// After `set_component(e, c)`, reading `(e, c's type)` gives `c`, and `e` exists.
pub proof fn lemma_set_then_get(before: World, after: World, entity_id: EntityId, component: Component)
    requires
        after@ == before@.insert((entity_id, component.component_id), component),
    ensures
        after@.contains_key((entity_id, component.component_id)),
        after@[(entity_id, component.component_id)] == component,
        after.has_entity_spec(entity_id),
{
    assert(after@.contains_key((entity_id, component.component_id)));
}

/// Deleting an entity's only component makes it stop existing.
pub proof fn lemma_delete_only_component(before: World, after: World, entity_id: EntityId, component_id: ComponentId)
    requires
        before@.contains_key((entity_id, component_id)),
        forall|c: ComponentId| #[trigger] before@.contains_key((entity_id, c)) ==> c == component_id,
        after@ == before@.remove((entity_id, component_id)),
    ensures
        !after.has_entity_spec(entity_id),
{
    assert forall|c: ComponentId| !#[trigger] after@.contains_key((entity_id, c)) by {
        if after@.contains_key((entity_id, c)) {
            assert(before@.contains_key((entity_id, c)));
        }
    }
}

/// A number handed out by `new_entity_id` differs from every number handed out
/// before it, and no later number equals it.
pub proof fn lemma_entity_ids_not_reused(before: World, after: World, issued: EntityId, earlier: EntityId)
    requires
        issued.0 == before.next_id(),
        after.next_id() == before.next_id() + 1,
        earlier.0 < before.next_id(),
    ensures
        issued != earlier,
        issued.0 < after.next_id(),
{
}

/// Two lists that are results of the same query on the same world are equal:
/// querying twice without a mutation in between gives the same entities in
/// the same order.
pub proof fn lemma_query_deterministic(
    world: World,
    with: Seq<ComponentId>,
    without: Seq<ComponentId>,
    first: Seq<EntityId>,
    second: Seq<EntityId>,
)
    requires
        world.is_query_result(with, without, first),
        world.is_query_result(with, without, second),
    ensures
        first == second,
{
    lemma_sorted_same_members(first, second);
}

proof fn lemma_sorted_same_members(a: Seq<EntityId>, b: Seq<EntityId>)
    requires
        forall|i: int, j: int| 0 <= i < j < a.len() ==> a[i].0 < a[j].0,
        forall|i: int, j: int| 0 <= i < j < b.len() ==> b[i].0 < b[j].0,
        forall|e: EntityId| #[trigger] a.contains(e) == b.contains(e),
    ensures
        a == b,
    decreases a.len() + b.len(),
{
    if a.len() == 0 {
        if b.len() > 0 {
            assert(b.contains(b[0]));
            assert(a.contains(b[0]) == b.contains(b[0]));
        }
        assert(a =~= b);
    } else if b.len() == 0 {
        assert(a.contains(a[0]));
        assert(a.contains(a[0]) == b.contains(a[0]));
    } else {
        let la = a.last();
        let lb = b.last();
        assert(a.contains(la));
        assert(b.contains(lb));
        assert(a.contains(la) == b.contains(la));
        assert(a.contains(lb) == b.contains(lb));
        let ib = choose|i: int| 0 <= i < b.len() && b[i] == la;
        let ia = choose|i: int| 0 <= i < a.len() && a[i] == lb;
        assert(la.0 <= lb.0) by {
            if ib < b.len() - 1 {
                assert(b[ib].0 < b[b.len() - 1].0);
            }
        }
        assert(lb.0 <= la.0) by {
            if ia < a.len() - 1 {
                assert(a[ia].0 < a[a.len() - 1].0);
            }
        }
        assert(la == lb);
        let a2 = a.drop_last();
        let b2 = b.drop_last();
        assert forall|e: EntityId| #[trigger] a2.contains(e) == b2.contains(e) by {
            if a2.contains(e) {
                let i = choose|i: int| 0 <= i < a2.len() && a2[i] == e;
                assert(a[i] == e);
                assert(e.0 < la.0);
                assert(a.contains(e) == b.contains(e));
                let j = choose|j: int| 0 <= j < b.len() && b[j] == e;
                assert(j != b.len() - 1);
                assert(b2[j] == e);
            }
            if b2.contains(e) {
                let i = choose|i: int| 0 <= i < b2.len() && b2[i] == e;
                assert(b[i] == e);
                assert(e.0 < lb.0);
                assert(a.contains(e) == b.contains(e));
                let j = choose|j: int| 0 <= j < a.len() && a[j] == e;
                assert(j != a.len() - 1);
                assert(a2[j] == e);
            }
        }
        lemma_sorted_same_members(a2, b2);
        assert(a =~= a2.push(la));
        assert(b =~= b2.push(lb));
    }
}

/// A world whose tracker was swapped out keeps every other invariant.
proof fn world_without_tracker_wf(w: World, v: World)
    requires
        w.wf(),
        v.components == w.components,
        v.server_entity_id_map == w.server_entity_id_map,
        v.next_entity_id == w.next_entity_id,
        v.change_tracker.wf(),
    ensures
        v.wf(),
{
    assert(v.components@ == w.components@);
}

/// Worlds with the same sets have the same components, so the change
/// tracker judges them alike.
proof fn lemma_same_world_view(a: World, b: World)
    requires
        a.components == b.components,
    ensures
        a@ == b@,
        forall|olds: Seq<TrackerEntry>, e: TrackerEntry| #[trigger] stepped_from_live(olds, e, a) == stepped_from_live(olds, e, b),
        forall|e: TrackerEntry, finals: Seq<TrackerEntry>| #[trigger] stepped_into(e, finals, a) == stepped_into(e, finals, b),
        forall|e: TrackerEntry| #[trigger] live(e, a) == live(e, b),
        forall|x: TrackerEntry, y: TrackerEntry| #[trigger] entry_stepped(x, y, a) == entry_stepped(x, y, b),
{
    assert(a@ =~= b@);
    assert forall|x: EntityComponentTracker, y: EntityComponentTracker, r: Option<ComponentTrackerEvent>|
        #[trigger] update_step(x, y, a, r) == update_step(x, y, b, r) by {
        assert(observed(a, x.entity_id, x.component_id) == observed(b, x.entity_id, x.component_id));
    }
    assert forall|x: TrackerEntry, y: TrackerEntry| #[trigger] entry_stepped(x, y, a) == entry_stepped(x, y, b) by {
        assert forall|sent: bool| #[trigger] entry_step(x, y, a, sent) == entry_step(x, y, b, sent) by {
            if entry_step(x, y, a, sent) {
                let r = choose|r: Option<ComponentTrackerEvent>| #[trigger] update_step(x.tracker, y.tracker, a, r)
                    && (sent <==> (r is Some && x.sender.next() < u32::MAX))
                    && (sent ==> y.sender.entry(x.sender.next() as int) == Some(std::sync::Arc::new(r->0)));
                assert(update_step(x.tracker, y.tracker, b, r));
            }
            if entry_step(x, y, b, sent) {
                let r = choose|r: Option<ComponentTrackerEvent>| #[trigger] update_step(x.tracker, y.tracker, b, r)
                    && (sent <==> (r is Some && x.sender.next() < u32::MAX))
                    && (sent ==> y.sender.entry(x.sender.next() as int) == Some(std::sync::Arc::new(r->0)));
                assert(update_step(x.tracker, y.tracker, a, r));
            }
        }
        if entry_stepped(x, y, a) {
            let sent = choose|sent: bool| entry_step(x, y, a, sent);
            assert(entry_step(x, y, b, sent));
        }
        if entry_stepped(x, y, b) {
            let sent = choose|sent: bool| entry_step(x, y, b, sent);
            assert(entry_step(x, y, a, sent));
        }
    }
    assert forall|e: TrackerEntry| #[trigger] live(e, a) == live(e, b) by {
        assert forall|e2: EntityId| a.has_entity_spec(e2) == b.has_entity_spec(e2) by {}
        assert(a.has_entity_spec(e.tracker.entity_id) == b.has_entity_spec(e.tracker.entity_id));
    }
    assert forall|olds: Seq<TrackerEntry>, e: TrackerEntry| #[trigger] stepped_from_live(olds, e, a) == stepped_from_live(olds, e, b) by {
        if stepped_from_live(olds, e, a) {
            let j = choose|j: int| 0 <= j < olds.len() && live(olds[j], a) && #[trigger] entry_stepped(olds[j], e, a);
            assert(live(olds[j], b) && entry_stepped(olds[j], e, b));
        }
        if stepped_from_live(olds, e, b) {
            let j = choose|j: int| 0 <= j < olds.len() && live(olds[j], b) && #[trigger] entry_stepped(olds[j], e, b);
            assert(live(olds[j], a) && entry_stepped(olds[j], e, a));
        }
    }
    assert forall|e: TrackerEntry, finals: Seq<TrackerEntry>| #[trigger] stepped_into(e, finals, a) == stepped_into(e, finals, b) by {
        if stepped_into(e, finals, a) {
            let k = choose|k: int| 0 <= k < finals.len() && #[trigger] entry_stepped(e, finals[k], a);
            assert(entry_stepped(e, finals[k], b));
        }
        if stepped_into(e, finals, b) {
            let k = choose|k: int| 0 <= k < finals.len() && #[trigger] entry_stepped(e, finals[k], b);
            assert(entry_stepped(e, finals[k], a));
        }
    }
}

} // verus!
