//! Turns differences between stored values into Added / Changed / Removed events.
use vstd::prelude::*;
use crate::component::Component;
use crate::events::{EventReceiver, EventSender, DEFAULT_EXPIRATION_MILLIS};
use std::sync::Arc;
use crate::ids::{ComponentId, EntityId};
use crate::world::World;

verus! {

/// What happened to one component between two observations.
#[derive(Debug)]
pub enum ComponentTrackerEvent {
    Added(Component),
    Changed { old: Component, new: Component },
    Removed(Component),
}

/// The serializable value of type `c` on the entity, if there is one.
pub open spec fn observed(world: World, entity_id: EntityId, c: ComponentId) -> Option<Component> {
    match world.component_at(entity_id, c) {
        Some(x) => if x.serializable() {
            Some(x)
        } else {
            None
        },
        None => None,
    }
}

/// Two optional values are equal as values.
pub open spec fn same_opt(a: Option<Component>, b: Option<Component>) -> bool {
    match (a, b) {
        (Some(x), Some(y)) => x.same_value(&y),
        (None, None) => true,
        _ => false,
    }
}

/// Whether going from `prev` to `cur` is an event.
pub open spec fn is_change(prev: Option<Component>, cur: Option<Component>) -> bool {
    !same_opt(prev, cur)
}

/// `ev` describes the change from `prev` to `cur`.
pub open spec fn describes(ev: ComponentTrackerEvent, prev: Option<Component>, cur: Option<Component>) -> bool {
    match ev {
        ComponentTrackerEvent::Added(v) => prev is None && cur is Some && v.same_value(&cur->0),
        ComponentTrackerEvent::Removed(v) => prev is Some && cur is None && v.same_value(&prev->0),
        ComponentTrackerEvent::Changed { old, new } => prev is Some && cur is Some && old.same_value(&prev->0)
            && new.same_value(&cur->0),
    }
}

/// Value equality is symmetric and transitive.
pub proof fn lemma_same_value_equivalence(a: Component, b: Component, c: Component)
    ensures
        a.same_value(&a),
        a.same_value(&b) ==> b.same_value(&a),
        a.same_value(&b) && b.same_value(&c) ==> a.same_value(&c),
{
}

/// The remembered value of one (entity, component) pair.
#[derive(Debug)]
pub struct EntityComponentTracker {
    pub entity_id: EntityId,
    pub component_id: ComponentId,
    pub previous_value: Option<Component>,
    pub initialized: bool,
}

/// How one `update` relates the tracker before, the tracker after, the world and the result.
pub open spec fn update_step(
    before: EntityComponentTracker,
    after: EntityComponentTracker,
    world: World,
    r: Option<ComponentTrackerEvent>,
) -> bool {
    let cur = observed(world, before.entity_id, before.component_id);
    &&& after.entity_id == before.entity_id
    &&& after.component_id == before.component_id
    &&& after.initialized
    &&& is_change(before.previous_value, cur) ==> same_opt(after.previous_value, cur)
    &&& !is_change(before.previous_value, cur) ==> after.previous_value == before.previous_value
    &&& r is Some <==> (before.initialized && is_change(before.previous_value, cur))
    &&& r is Some ==> describes(r->0, before.previous_value, cur)
}

impl EntityComponentTracker {
    /// A tracker that has observed nothing yet.
    pub fn new(entity_id: EntityId, component_id: ComponentId) -> (r: EntityComponentTracker)
        ensures
            r.entity_id == entity_id,
            r.component_id == component_id,
            r.previous_value is None,
            !r.initialized,
    {
        EntityComponentTracker { entity_id, component_id, previous_value: None, initialized: false }
    }

    /// Compares the stored value with the remembered one and remembers the
    /// stored one; the first update never reports an event.
    pub fn update(&mut self, world: &World) -> (r: Option<ComponentTrackerEvent>)
        requires
            world.wf(),
        ensures
            update_step(*old(self), *final(self), *world, r),
    {
        let initialized = self.initialized;
        self.initialized = true;
        let current: Option<&Component> = match world.get_component(self.entity_id, self.component_id) {
            Some(c) => if c.is_serializable() {
                Some(c)
            } else {
                None
            },
            None => None,
        };
        let event = match (&self.previous_value, current) {
            (None, Some(cur)) => {
                let ev = ComponentTrackerEvent::Added(cur.clone_value());
                self.previous_value = Some(cur.clone_value());
                ev
            },
            (Some(prev), None) => {
                let ev = ComponentTrackerEvent::Removed(prev.clone_value());
                self.previous_value = None;
                ev
            },
            (Some(prev), Some(cur)) => {
                if prev.value_eq(cur) {
                    return None;
                }
                let ev = ComponentTrackerEvent::Changed { old: prev.clone_value(), new: cur.clone_value() };
                self.previous_value = Some(cur.clone_value());
                ev
            },
            (None, None) => {
                return None;
            },
        };
        if initialized {
            Some(event)
        } else {
            None
        }
    }
}

/// Observing a fresh tracker reports nothing on the first update, even for a
/// value that was already there; a later update that sees a different value
/// reports exactly that change.
pub proof fn lemma_first_observation_silent(
    t0: EntityComponentTracker,
    t1: EntityComponentTracker,
    t2: EntityComponentTracker,
    w1: World,
    w2: World,
    r1: Option<ComponentTrackerEvent>,
    r2: Option<ComponentTrackerEvent>,
)
    requires
        !t0.initialized,
        t0.previous_value is None,
        update_step(t0, t1, w1, r1),
        update_step(t1, t2, w2, r2),
        observed(w1, t0.entity_id, t0.component_id) is Some,
        observed(w2, t0.entity_id, t0.component_id) is Some,
        !observed(w1, t0.entity_id, t0.component_id)->0.same_value(&observed(w2, t0.entity_id, t0.component_id)->0),
    ensures
        r1 is None,
        r2 is Some,
        r2->0 is Changed,
        describes(r2->0, t1.previous_value, observed(w2, t0.entity_id, t0.component_id)),
{
    let x = observed(w1, t0.entity_id, t0.component_id)->0;
    let y = observed(w2, t0.entity_id, t0.component_id)->0;
    assert(t1.previous_value is Some);
    let p = t1.previous_value->0;
    lemma_same_value_equivalence(p, x, y);
    lemma_same_value_equivalence(x, p, y);
    assert(!p.same_value(&y));
}

/// A tracked pair: its remembered value and the channel its events go to.
#[derive(Debug)]
pub struct TrackerEntry {
    pub tracker: EntityComponentTracker,
    pub sender: EventSender<ComponentTrackerEvent>,
}

/// One tracker per (entity, component) pair that someone asked to observe.
#[derive(Debug)]
pub struct GlobalComponentTracker {
    entries: Vec<TrackerEntry>,
}

/// One update of an entry: the tracker steps, and the event it reports, if any,
/// is sent on the entry's channel unless the channel's indices are used up.
pub open spec fn entry_step(before: TrackerEntry, after: TrackerEntry, world: World, sent: bool) -> bool {
    &&& after.sender.wf()
    &&& exists|r: Option<ComponentTrackerEvent>| #[trigger] update_step(before.tracker, after.tracker, world, r)
        && (sent <==> (r is Some && before.sender.next() < u32::MAX))
        && (sent ==> after.sender.entry(before.sender.next() as int) == Some(Arc::new(r->0)))
    &&& sent ==> after.sender.next() == before.sender.next() + 1 && after.sender.subscriber_count() <= before.sender.subscriber_count()
    &&& !sent ==> after.sender == before.sender
}

/// The entry went from `before` to `after` by one update, whether or not it sent.
pub open spec fn entry_stepped(before: TrackerEntry, after: TrackerEntry, world: World) -> bool {
    exists|sent: bool| entry_step(before, after, world, sent)
}

/// Whether the entry belongs to `entity_id` and, if given, to `component_id`.
pub open spec fn selected(e: TrackerEntry, entity_id: EntityId, component_id: Option<ComponentId>) -> bool {
    e.tracker.entity_id == entity_id && (component_id is None || component_id == Some(e.tracker.component_id))
}

/// Whether the entry's entity exists and its channel has a receiver.
pub open spec fn live(e: TrackerEntry, world: World) -> bool {
    world.has_entity_spec(e.tracker.entity_id) && e.sender.subscriber_count() > 0
}

/// `e` is one update of a live entry of `olds`.
pub open spec fn stepped_from_live(olds: Seq<TrackerEntry>, e: TrackerEntry, world: World) -> bool {
    exists|j: int| 0 <= j < olds.len() && live(olds[j], world) && #[trigger] entry_stepped(olds[j], e, world)
}

/// Some entry of `finals` is one update of `e`.
pub open spec fn stepped_into(e: TrackerEntry, finals: Seq<TrackerEntry>, world: World) -> bool {
    exists|k: int| 0 <= k < finals.len() && #[trigger] entry_stepped(e, finals[k], world)
}

/// Updates one entry and sends its event, if any.
fn update_entry(entry: &mut TrackerEntry, world: &World, now: u64) -> (sent: bool)
    requires
        world.wf(),
        old(entry).sender.wf(),
    ensures
        entry_step(*old(entry), *final(entry), *world, sent),
{
    let ghost before = *entry;
    let event = entry.tracker.update(world);
    let ghost r = event;
    match event {
        Some(ev) => {
            if entry.sender.next_event_index() < u32::MAX {
                entry.sender.send(ev, now);
                proof { assert(update_step(before.tracker, entry.tracker, *world, r)); }
                true
            } else {
                proof { assert(update_step(before.tracker, entry.tracker, *world, r)); }
                false
            }
        },
        None => {
            proof { assert(update_step(before.tracker, entry.tracker, *world, r)); }
            false
        },
    }
}

impl GlobalComponentTracker {
    /// The tracked pairs, each with its tracker and channel.
    pub closed spec fn entries(&self) -> Seq<TrackerEntry> {
        self.entries@
    }

    pub open spec fn tracks(&self, entity_id: EntityId, component_id: ComponentId) -> bool {
        exists|k: int|
            0 <= k < self.entries().len() && (#[trigger] self.entries()[k]).tracker.entity_id == entity_id
                && self.entries()[k].tracker.component_id == component_id
    }

    pub closed spec fn wf(&self) -> bool {
        &&& forall|k: int| 0 <= k < self.entries@.len() ==> (#[trigger] self.entries@[k]).sender.wf()
        &&& forall|a: int, b: int|
            0 <= a < b < self.entries@.len() ==> ((#[trigger] self.entries@[a]).tracker.entity_id, self.entries@[a].tracker.component_id)
                != ((#[trigger] self.entries@[b]).tracker.entity_id, self.entries@[b].tracker.component_id)
    }

    pub fn new() -> (r: GlobalComponentTracker)
        ensures
            r.wf(),
            r.entries().len() == 0,
    {
        GlobalComponentTracker { entries: Vec::new() }
    }

    fn find(&self, entity_id: EntityId, component_id: ComponentId) -> (r: Option<usize>)
        ensures
            r is Some ==> r->0 < self.entries().len() && self.entries()[r->0 as int].tracker.entity_id == entity_id
                && self.entries()[r->0 as int].tracker.component_id == component_id,
            r is None ==> !self.tracks(entity_id, component_id),
    {
        let mut i: usize = 0;
        while i < self.entries.len()
            invariant
                i <= self.entries@.len(),
                forall|k: int| 0 <= k < i ==> !((#[trigger] self.entries@[k]).tracker.entity_id == entity_id
                    && self.entries@[k].tracker.component_id == component_id),
            decreases self.entries.len() - i,
        {
            if self.entries[i].tracker.entity_id.0 == entity_id.0 && self.entries[i].tracker.component_id.0 == component_id.0 {
                return Some(i);
            }
            i = i + 1;
        }
        None
    }

    /// The position of the pair's entry, if it is tracked.
    pub open spec fn pair_index(&self, entity_id: EntityId, component_id: ComponentId) -> int {
        choose|k: int|
            0 <= k < self.entries().len() && (#[trigger] self.entries()[k]).tracker.entity_id == entity_id
                && self.entries()[k].tracker.component_id == component_id
    }

    /// The entry a pair gets on its first request: a fresh tracker and an
    /// empty channel with the default retention and no receiver.
    pub open spec fn fresh_entry(e: TrackerEntry, entity_id: EntityId, component_id: ComponentId) -> bool {
        &&& e.tracker.entity_id == entity_id
        &&& e.tracker.component_id == component_id
        &&& e.tracker.previous_value is None
        &&& !e.tracker.initialized
        &&& e.sender.wf()
        &&& e.sender.expiration() == DEFAULT_EXPIRATION_MILLIS
        &&& e.sender.next() == 0
        &&& e.sender.retained().len() == 0
        &&& e.sender.named().len() == 0
        &&& e.sender.subscriber_count() == 0
    }

    proof fn lemma_pair_index(&self, k: int)
        requires
            self.wf(),
            0 <= k < self.entries().len(),
        ensures
            self.tracks(self.entries()[k].tracker.entity_id, self.entries()[k].tracker.component_id),
            self.pair_index(self.entries()[k].tracker.entity_id, self.entries()[k].tracker.component_id) == k,
    {
        let e = self.entries()[k].tracker.entity_id;
        let c = self.entries()[k].tracker.component_id;
        let j = self.pair_index(e, c);
        assert(self.entries@[k].tracker.entity_id == e);
        if j != k {
            if j < k {
                assert((self.entries@[j].tracker.entity_id, self.entries@[j].tracker.component_id)
                    != (self.entries@[k].tracker.entity_id, self.entries@[k].tracker.component_id));
            } else {
                assert((self.entries@[k].tracker.entity_id, self.entries@[k].tracker.component_id)
                    != (self.entries@[j].tracker.entity_id, self.entries@[j].tracker.component_id));
            }
        }
    }

    /// Makes the pair tracked, with a fresh entry if it is new; returns its position.
    fn ensure_pair(&mut self, entity_id: EntityId, component_id: ComponentId) -> (i: usize)
        requires
            old(self).wf(),
        ensures
            final(self).wf(),
            i < final(self).entries().len(),
            final(self).entries()[i as int].tracker.entity_id == entity_id,
            final(self).entries()[i as int].tracker.component_id == component_id,
            final(self).pair_index(entity_id, component_id) == i,
            old(self).tracks(entity_id, component_id) ==> final(self).entries() == old(self).entries(),
            !old(self).tracks(entity_id, component_id) ==> final(self).entries().len() == old(self).entries().len() + 1
                && i == old(self).entries().len()
                && final(self).entries().subrange(0, old(self).entries().len() as int) == old(self).entries()
                && Self::fresh_entry(final(self).entries()[i as int], entity_id, component_id),
    {
        match self.find(entity_id, component_id) {
            Some(i) => {
                proof { self.lemma_pair_index(i as int); }
                i
            },
            None => {
                let ghost prev = self.entries();
                let sender = EventSender::default_expiration();
                self.entries.push(TrackerEntry { tracker: EntityComponentTracker::new(entity_id, component_id), sender });
                proof {
                    assert forall|a: int, b: int| 0 <= a < b < self.entries@.len() implies ((#[trigger] self.entries@[a]).tracker.entity_id, self.entries@[a].tracker.component_id)
                        != ((#[trigger] self.entries@[b]).tracker.entity_id, self.entries@[b].tracker.component_id) by {
                        if b == prev.len() {
                            assert(self.entries@[a] == prev[a]);
                        }
                    }
                    assert(self.entries().subrange(0, prev.len() as int) =~= prev);
                    self.lemma_pair_index(prev.len() as int);
                }
                self.entries.len() - 1
            },
        }
    }

    /// The channel of one pair's change events. The pair's tracker and channel
    /// are made on the first request; later requests return the same channel.
    pub fn get_event_sender(&mut self, entity_id: EntityId, component_id: ComponentId) -> (r: &EventSender<ComponentTrackerEvent>)
        requires
            old(self).wf(),
        ensures
            final(self).wf(),
            final(self).tracks(entity_id, component_id),
            *r == final(self).entries()[final(self).pair_index(entity_id, component_id)].sender,
            old(self).tracks(entity_id, component_id) ==> final(self).entries() == old(self).entries(),
            !old(self).tracks(entity_id, component_id) ==> final(self).entries().len() == old(self).entries().len() + 1
                && final(self).entries().subrange(0, old(self).entries().len() as int) == old(self).entries()
                && Self::fresh_entry(final(self).entries()[final(self).pair_index(entity_id, component_id)], entity_id, component_id),
    {
        let i = self.ensure_pair(entity_id, component_id);
        &self.entries[i].sender
    }

    /// Subscribes to one pair's change events, tracking the pair from now on.
    /// The receiver starts at the channel's next index.
    pub fn subscribe(&mut self, entity_id: EntityId, component_id: ComponentId) -> (r: EventReceiver)
        requires
            old(self).wf(),
        ensures
            final(self).wf(),
            final(self).tracks(entity_id, component_id),
            ({
                let k = final(self).pair_index(entity_id, component_id);
                let before = if old(self).tracks(entity_id, component_id) {
                    old(self).entries()[k]
                } else {
                    final(self).entries()[k]
                };
                let after = final(self).entries()[k];
                &&& !old(self).tracks(entity_id, component_id) ==> k == old(self).entries().len()
                    && after.tracker.entity_id == entity_id && after.tracker.component_id == component_id
                    && after.tracker.previous_value is None && !after.tracker.initialized
                    && after.sender.expiration() == DEFAULT_EXPIRATION_MILLIS && after.sender.next() == 0
                    && after.sender.retained().len() == 0 && after.sender.subscriber_count() == 1
                &&& r.cursor() == after.sender.next()
                &&& old(self).tracks(entity_id, component_id) ==> {
                    &&& after.tracker == before.tracker
                    &&& after.sender.next() == before.sender.next()
                    &&& after.sender.retained() == before.sender.retained()
                    &&& after.sender.named() == before.sender.named()
                    &&& after.sender.subscriber_count() == if before.sender.subscriber_count() < u32::MAX {
                        before.sender.subscriber_count() + 1
                    } else {
                        before.sender.subscriber_count() as int
                    }
                }
                &&& final(self).entries().len() == old(self).entries().len() + if old(self).tracks(entity_id, component_id) {
                    0int
                } else {
                    1int
                }
                &&& forall|j: int| 0 <= j < old(self).entries().len() && j != k ==> #[trigger] final(self).entries()[j]
                    == old(self).entries()[j]
            }),
    {
        let ghost was_tracked = self.tracks(entity_id, component_id);
        let i = self.ensure_pair(entity_id, component_id);
        let ghost prev = self.entries();
        let mut entry = TrackerEntry {
            tracker: EntityComponentTracker::new(entity_id, component_id),
            sender: EventSender::new(0),
        };
        self.entries.set_and_swap(i, &mut entry);
        let r = entry.sender.subscribe();
        let ghost updated = entry;
        self.entries.set_and_swap(i, &mut entry);
        proof {
            assert(self.entries@ =~= prev.update(i as int, updated));
            assert forall|a: int, b: int| 0 <= a < b < self.entries@.len() implies ((#[trigger] self.entries@[a]).tracker.entity_id, self.entries@[a].tracker.component_id)
                != ((#[trigger] self.entries@[b]).tracker.entity_id, self.entries@[b].tracker.component_id) by {
                assert(self.entries@[a].tracker == prev[a].tracker);
                assert(self.entries@[b].tracker == prev[b].tracker);
            }
            assert forall|k: int| 0 <= k < self.entries@.len() implies (#[trigger] self.entries@[k]).sender.wf() by {
                if k != i {
                    assert(self.entries@[k] == prev[k]);
                }
            }
            self.lemma_pair_index(i as int);
            assert(self.entries()[i as int] == updated);
            assert(updated.tracker == prev[i as int].tracker);
            if was_tracked {
                assert(prev == old(self).entries());
            } else {
                assert(Self::fresh_entry(prev[i as int], entity_id, component_id));
            }
            assert forall|j: int| 0 <= j < old(self).entries().len() && j != i implies #[trigger] self.entries()[j]
                == old(self).entries()[j] by {
                assert(self.entries()[j] == prev[j]);
                if !was_tracked {
                    assert(prev.subrange(0, old(self).entries().len() as int)[j] == old(self).entries()[j]);
                }
            }
        }
        r
    }

    /// Updates the entries at positions where `select` holds.
    fn update_where(&mut self, world: &World, now: u64, entity_id: EntityId, component_id: Option<ComponentId>)
        requires
            old(self).wf(),
            world.wf(),
        ensures
            final(self).wf(),
            final(self).entries().len() == old(self).entries().len(),
            forall|k: int| 0 <= k < old(self).entries().len() && selected(old(self).entries()[k], entity_id, component_id)
                ==> #[trigger] entry_stepped(old(self).entries()[k], final(self).entries()[k], *world),
            forall|k: int| 0 <= k < old(self).entries().len() && !selected(old(self).entries()[k], entity_id, component_id)
                ==> #[trigger] final(self).entries()[k] == old(self).entries()[k],
    {
        let mut i: usize = 0;
        while i < self.entries.len()
            invariant
                self.wf(),
                world.wf(),
                i <= self.entries@.len(),
                self.entries@.len() == old(self).entries@.len(),
                forall|k: int| i <= k < self.entries@.len() ==> #[trigger] self.entries@[k] == old(self).entries@[k],
                forall|k: int| 0 <= k < i && selected(old(self).entries()[k], entity_id, component_id)
                    ==> #[trigger] entry_stepped(old(self).entries()[k], self.entries()[k], *world),
                forall|k: int| 0 <= k < i && !selected(old(self).entries()[k], entity_id, component_id)
                    ==> #[trigger] self.entries()[k] == old(self).entries()[k],
            decreases self.entries.len() - i,
        {
            let chosen = self.entries[i].tracker.entity_id.0 == entity_id.0 && match component_id {
                Some(c) => self.entries[i].tracker.component_id.0 == c.0,
                None => true,
            };
            if chosen {
                let ghost prev = self.entries();
                let mut entry = TrackerEntry {
                    tracker: EntityComponentTracker::new(entity_id, ComponentId(0)),
                    sender: EventSender::new(0),
                };
                self.entries.set_and_swap(i, &mut entry);
                let sent = update_entry(&mut entry, world, now);
                let ghost updated = entry;
                self.entries.set_and_swap(i, &mut entry);
                proof {
                    assert(self.entries@ =~= prev.update(i as int, updated));
                    assert(entry_step(old(self).entries()[i as int], self.entries()[i as int], *world, sent));
                    assert forall|a: int, b: int| 0 <= a < b < self.entries@.len() implies ((#[trigger] self.entries@[a]).tracker.entity_id, self.entries@[a].tracker.component_id)
                        != ((#[trigger] self.entries@[b]).tracker.entity_id, self.entries@[b].tracker.component_id) by {
                        assert(self.entries@[a].tracker.entity_id == prev[a].tracker.entity_id);
                        assert(self.entries@[b].tracker.entity_id == prev[b].tracker.entity_id);
                        assert(self.entries@[a].tracker.component_id == prev[a].tracker.component_id);
                        assert(self.entries@[b].tracker.component_id == prev[b].tracker.component_id);
                    }
                    assert forall|k: int| 0 <= k < self.entries@.len() implies (#[trigger] self.entries@[k]).sender.wf() by {
                        if k != i {
                            assert(self.entries@[k] == prev[k]);
                        }
                    }
                    assert forall|k: int| 0 <= k < i + 1 && selected(old(self).entries()[k], entity_id, component_id)
                        implies #[trigger] entry_stepped(old(self).entries()[k], self.entries()[k], *world) by {
                        if k < i {
                            assert(self.entries()[k] == prev[k]);
                        } else {
                            assert(entry_step(old(self).entries()[k], self.entries()[k], *world, sent));
                        }
                    }
                    assert forall|k: int| 0 <= k < i + 1 && !selected(old(self).entries()[k], entity_id, component_id)
                        implies #[trigger] self.entries()[k] == old(self).entries()[k] by {
                        assert(self.entries()[k] == prev[k]);
                    }
                }
            }
            i = i + 1;
        }
    }

    /// Updates the tracker of one pair, if it is tracked.
    pub fn update_entity_component(&mut self, world: &World, entity_id: EntityId, component_id: ComponentId, now: u64)
        requires
            old(self).wf(),
            world.wf(),
        ensures
            final(self).wf(),
            final(self).entries().len() == old(self).entries().len(),
            forall|k: int| 0 <= k < old(self).entries().len() && selected(old(self).entries()[k], entity_id, Some(component_id))
                ==> #[trigger] entry_stepped(old(self).entries()[k], final(self).entries()[k], *world),
            forall|k: int| 0 <= k < old(self).entries().len() && !selected(old(self).entries()[k], entity_id, Some(component_id))
                ==> #[trigger] final(self).entries()[k] == old(self).entries()[k],
    {
        self.update_where(world, now, entity_id, Some(component_id));
    }

    /// Updates every tracker of one entity.
    pub fn update_entity(&mut self, world: &World, entity_id: EntityId, now: u64)
        requires
            old(self).wf(),
            world.wf(),
        ensures
            final(self).wf(),
            final(self).entries().len() == old(self).entries().len(),
            forall|k: int| 0 <= k < old(self).entries().len() && selected(old(self).entries()[k], entity_id, None)
                ==> #[trigger] entry_stepped(old(self).entries()[k], final(self).entries()[k], *world),
            forall|k: int| 0 <= k < old(self).entries().len() && !selected(old(self).entries()[k], entity_id, None)
                ==> #[trigger] final(self).entries()[k] == old(self).entries()[k],
    {
        self.update_where(world, now, entity_id, None);
    }

    /// Forgets the pairs whose entity no longer exists or whose channel has no receiver.
    pub fn clean(&mut self, world: &World)
        requires
            old(self).wf(),
            world.wf(),
        ensures
            final(self).wf(),
            forall|k: int| 0 <= k < final(self).entries().len() ==> old(self).entries().contains(#[trigger] final(self).entries()[k]),
            forall|k: int| 0 <= k < final(self).entries().len() ==> world.has_entity_spec((#[trigger] final(self).entries()[k]).tracker.entity_id)
                && final(self).entries()[k].sender.subscriber_count() > 0,
            forall|j: int| 0 <= j < old(self).entries().len() && world.has_entity_spec((#[trigger] old(self).entries()[j]).tracker.entity_id)
                && old(self).entries()[j].sender.subscriber_count() > 0 ==> exists|k: int|
                0 <= k < final(self).entries().len() && final(self).entries()[k] == old(self).entries()[j],
    {
        let ghost all = self.entries@;
        let ghost mut j: int = 0;
        let ghost mut origin: Seq<int> = Seq::empty();
        let mut i: usize = 0;
        while i < self.entries.len()
            invariant
                world.wf(),
                all == old(self).entries@,
                forall|k: int| 0 <= k < all.len() ==> (#[trigger] all[k]).sender.wf(),
                forall|a: int, b: int| 0 <= a < b < all.len() ==> ((#[trigger] all[a]).tracker.entity_id, all[a].tracker.component_id)
                    != ((#[trigger] all[b]).tracker.entity_id, all[b].tracker.component_id),
                i <= self.entries@.len(),
                i <= j <= all.len(),
                self.entries@.len() - i == all.len() - j,
                forall|k: int| i <= k < self.entries@.len() ==> #[trigger] self.entries@[k] == all[j + k - i],
                origin.len() == i,
                forall|k: int| 0 <= k < i ==> 0 <= #[trigger] origin[k] < j && self.entries@[k] == all[origin[k]],
                forall|a: int, b: int| 0 <= a < b < i ==> #[trigger] origin[a] < #[trigger] origin[b],
                forall|k: int| 0 <= k < i ==> world.has_entity_spec((#[trigger] self.entries@[k]).tracker.entity_id)
                    && self.entries@[k].sender.subscriber_count() > 0,
                forall|q: int| 0 <= q < j && world.has_entity_spec((#[trigger] all[q]).tracker.entity_id)
                    && all[q].sender.subscriber_count() > 0 ==> exists|k: int| 0 <= k < i && origin[k] == q,
            decreases self.entries.len() - i,
        {
            let ghost prev = self.entries();
            let ghost prev_origin = origin;
            proof { assert(prev[i as int] == all[j]); }
            if world.has_entity(self.entries[i].tracker.entity_id) && self.entries[i].sender.receiver_count() > 0 {
                proof {
                    origin = origin.push(j);
                    j = j + 1;
                }
                i = i + 1;
                proof {
                    assert forall|q: int| 0 <= q < j && world.has_entity_spec((#[trigger] all[q]).tracker.entity_id)
                        && all[q].sender.subscriber_count() > 0 implies exists|k: int| 0 <= k < i && origin[k] == q by {
                        if q == j - 1 {
                            assert(origin[i - 1] == q);
                        } else {
                            let k = choose|k: int| 0 <= k < i - 1 && prev_origin[k] == q;
                            assert(origin[k] == prev_origin[k]);
                        }
                    }
                }
            } else {
                let _gone = self.entries.remove(i);
                proof {
                    j = j + 1;
                    assert forall|k: int| i <= k < self.entries@.len() implies #[trigger] self.entries@[k] == all[j + k - i] by {
                        assert(self.entries@[k] == prev[k + 1]);
                    }
                    assert forall|k: int| 0 <= k < i implies #[trigger] self.entries@[k] == prev[k] by {}
                    assert forall|q: int| 0 <= q < j && world.has_entity_spec((#[trigger] all[q]).tracker.entity_id)
                        && all[q].sender.subscriber_count() > 0 implies exists|k: int| 0 <= k < i && origin[k] == q by {
                        if q < j - 1 {
                            let k = choose|k: int| 0 <= k < i && prev_origin[k] == q;
                        }
                    }
                }
            }
        }
        proof {
            assert(j == all.len());
            assert forall|a: int, b: int| 0 <= a < b < self.entries@.len() implies ((#[trigger] self.entries@[a]).tracker.entity_id, self.entries@[a].tracker.component_id)
                != ((#[trigger] self.entries@[b]).tracker.entity_id, self.entries@[b].tracker.component_id) by {
                assert(origin[a] < origin[b]);
            }
            assert forall|k: int| 0 <= k < self.entries@.len() implies (#[trigger] self.entries@[k]).sender.wf() by {
                assert(self.entries@[k] == all[origin[k]]);
            }
            assert forall|k: int| 0 <= k < self.entries().len() implies old(self).entries().contains(#[trigger] self.entries()[k]) by {
                assert(self.entries@[k] == all[origin[k]]);
                assert(self.entries()[k] == old(self).entries()[origin[k]]);
            }
            assert forall|q: int| 0 <= q < all.len() && world.has_entity_spec((#[trigger] all[q]).tracker.entity_id)
                && all[q].sender.subscriber_count() > 0 implies exists|k: int|
                0 <= k < self.entries().len() && self.entries()[k] == all[q] by {
                let k = choose|k: int| 0 <= k < i && origin[k] == q;
                assert(self.entries@[k] == all[origin[k]]);
            }
        }
    }

    /// Forgets stale pairs, then updates every remaining tracker.
    pub fn update(&mut self, world: &World, now: u64)
        requires
            old(self).wf(),
            world.wf(),
        ensures
            final(self).wf(),
            forall|k: int| 0 <= k < final(self).entries().len() ==> stepped_from_live(old(self).entries(), #[trigger] final(self).entries()[k], *world),
            forall|j: int| 0 <= j < old(self).entries().len() && live(old(self).entries()[j], *world)
                ==> stepped_into(#[trigger] old(self).entries()[j], final(self).entries(), *world),
    {
        self.clean(world);
        let ghost cleaned = self.entries();
        let mut i: usize = 0;
        while i < self.entries.len()
            invariant
                self.wf(),
                world.wf(),
                i <= self.entries@.len(),
                self.entries@.len() == cleaned.len(),
                forall|k: int| i <= k < self.entries@.len() ==> #[trigger] self.entries@[k] == cleaned[k],
                forall|k: int| 0 <= k < i ==> #[trigger] entry_stepped(cleaned[k], self.entries()[k], *world),
            decreases self.entries.len() - i,
        {
            let ghost prev = self.entries();
            let mut entry = TrackerEntry {
                tracker: EntityComponentTracker::new(EntityId(0), ComponentId(0)),
                sender: EventSender::new(0),
            };
            self.entries.set_and_swap(i, &mut entry);
            let sent = update_entry(&mut entry, world, now);
            let ghost updated = entry;
            self.entries.set_and_swap(i, &mut entry);
            proof {
                assert(self.entries@ =~= prev.update(i as int, updated));
                assert(entry_step(cleaned[i as int], self.entries()[i as int], *world, sent));
                assert forall|a: int, b: int| 0 <= a < b < self.entries@.len() implies ((#[trigger] self.entries@[a]).tracker.entity_id, self.entries@[a].tracker.component_id)
                    != ((#[trigger] self.entries@[b]).tracker.entity_id, self.entries@[b].tracker.component_id) by {
                    assert(self.entries@[a].tracker.entity_id == prev[a].tracker.entity_id);
                    assert(self.entries@[b].tracker.entity_id == prev[b].tracker.entity_id);
                    assert(self.entries@[a].tracker.component_id == prev[a].tracker.component_id);
                    assert(self.entries@[b].tracker.component_id == prev[b].tracker.component_id);
                }
                assert forall|k: int| 0 <= k < self.entries@.len() implies (#[trigger] self.entries@[k]).sender.wf() by {
                    if k != i {
                        assert(self.entries@[k] == prev[k]);
                    }
                }
                assert(entry_stepped(cleaned[i as int], self.entries()[i as int], *world));
                assert forall|k: int| 0 <= k < i + 1 implies #[trigger] entry_stepped(cleaned[k], self.entries()[k], *world) by {
                    if k < i {
                        assert(self.entries()[k] == prev[k]);
                    }
                }
            }
            i = i + 1;
        }
        proof {
            assert forall|k: int| 0 <= k < self.entries().len() implies stepped_from_live(old(self).entries(), #[trigger] self.entries()[k], *world) by {
                assert(entry_stepped(cleaned[k], self.entries()[k], *world));
                assert(old(self).entries().contains(cleaned[k]));
                let j = choose|j: int| 0 <= j < old(self).entries().len() && old(self).entries()[j] == cleaned[k];
                assert(live(old(self).entries()[j], *world));
                assert(entry_stepped(old(self).entries()[j], self.entries()[k], *world));
            }
            assert forall|j: int| 0 <= j < old(self).entries().len() && live(old(self).entries()[j], *world)
                implies stepped_into(#[trigger] old(self).entries()[j], self.entries(), *world) by {
                assert(world.has_entity_spec((old(self).entries()[j]).tracker.entity_id));
                let k = choose|k: int| 0 <= k < cleaned.len() && cleaned[k] == old(self).entries()[j];
                assert(entry_stepped(cleaned[k], self.entries()[k], *world));
            }
        }
    }
}

} // verus!
