//! The replication policy component and the per-client diffing replicator.
use vstd::prelude::*;
use crate::component::{
    distinct_ids, entry_of, find_entry, lemma_entry_at, lemma_entry_pop, lemma_entry_push, upsert_entry, Component,
    ComponentData,
};
use crate::ids::{ClientId, ComponentId, EntityId, ServerEntityId};
use crate::world::World;
use crate::selection::Selection;

verus! {

/// Marks an entity as replicable and says to whom and what.
#[derive(Debug)]
pub struct Replicate {
    pub server_entity_id: ServerEntityId,
    pub owner: Option<ClientId>,
    pub replicate_to: Selection<ClientId>,
    /// The client never writes the `Replicate` component itself.
    pub client_writable: Selection<ComponentId>,
    pub replicated_components: Selection<ComponentId>,
    pub auto_replicate_changes: Selection<ComponentId>,
}

/// Two selections of the same kind with the same listed values.
pub open spec fn same_selection<T>(a: Selection<T>, b: Selection<T>) -> bool {
    a.is_whitelist() == b.is_whitelist() && a.values() == b.values()
}

/// The type id of the `Replicate` component: the hash of its type name.
pub open spec fn replicate_id() -> ComponentId {
    ComponentId(crate::ids::type_name_hash("Replicate"@))
}

/// One logical mutation sent between peers.
#[derive(Debug)]
pub enum NetEcsCommand {
    SetComponent(ServerEntityId, Component),
    DeleteComponent(ServerEntityId, ComponentId),
    DeleteEntity(ServerEntityId),
}

impl NetEcsCommand {
    pub open spec fn target(&self) -> ServerEntityId {
        match self {
            NetEcsCommand::SetComponent(s, _) => *s,
            NetEcsCommand::DeleteComponent(s, _) => *s,
            NetEcsCommand::DeleteEntity(s) => *s,
        }
    }

    pub fn server_entity_id(&self) -> (r: ServerEntityId)
        ensures
            r == self.target(),
    {
        match self {
            NetEcsCommand::SetComponent(s, _) => *s,
            NetEcsCommand::DeleteComponent(s, _) => *s,
            NetEcsCommand::DeleteEntity(s) => *s,
        }
    }
}

impl Replicate {
    /// The type id of the `Replicate` component.
    pub fn component_type_id() -> (r: ComponentId)
        ensures
            r == replicate_id(),
    {
        proof {
            reveal_strlit("Replicate");
        }
        ComponentId::from_type_name("Replicate")
    }

    /// This policy as a component.
    pub fn into_component(self) -> (r: Component)
        ensures
            r.component_id == replicate_id(),
            r.data == ComponentData::Replicate(self),
    {
        Component { component_id: Replicate::component_type_id(), data: ComponentData::Replicate(self) }
    }

    /// Value equality of two policies.
    pub open spec fn same_policy(&self, other: &Replicate) -> bool {
        &&& self.server_entity_id == other.server_entity_id
        &&& self.owner == other.owner
        &&& same_selection(self.replicate_to, other.replicate_to)
        &&& same_selection(self.client_writable, other.client_writable)
        &&& same_selection(self.replicated_components, other.replicated_components)
        &&& same_selection(self.auto_replicate_changes, other.auto_replicate_changes)
    }

    pub fn policy_eq(&self, other: &Replicate) -> (r: bool)
        ensures
            r == self.same_policy(other),
    {
        self.server_entity_id.0.0 == other.server_entity_id.0.0 && match (self.owner, other.owner) {
            (Some(a), Some(b)) => a.0 == b.0,
            (None, None) => true,
            _ => false,
        } && self.replicate_to.same_as(&other.replicate_to) && self.client_writable.same_as(
            &other.client_writable,
        ) && self.replicated_components.same_as(&other.replicated_components)
            && self.auto_replicate_changes.same_as(&other.auto_replicate_changes)
    }

    pub fn duplicate(&self) -> (r: Replicate)
        ensures
            r.same_policy(self),
    {
        Replicate {
            server_entity_id: self.server_entity_id,
            owner: self.owner,
            replicate_to: self.replicate_to.duplicate(),
            client_writable: self.client_writable.duplicate(),
            replicated_components: self.replicated_components.duplicate(),
            auto_replicate_changes: self.auto_replicate_changes.duplicate(),
        }
    }
}

/// What a diff pass does with one component of a mirrored entity.
#[derive(Clone, Copy, Debug, PartialEq, Eq, Structural)]
pub enum EntryAction {
    /// The snapshot entry stays as it is (or stays absent).
    Keep,
    /// The snapshot entry is dropped.
    Delete,
    /// The live value is copied into the snapshot and sent.
    Send,
}

/// Whether the policy mirrors component type `c` at all.
pub open spec fn mirrors(rep: Replicate, c: ComponentId) -> bool {
    c == replicate_id() || rep.replicated_components.includes(c)
}

/// Whether the owning client writes `c` itself, so the server must not echo it back.
pub open spec fn self_writable(rep: Replicate, client: ClientId, c: ComponentId) -> bool {
    rep.owner == Some(client) && rep.client_writable.includes(c)
}

/// Whether later changes of `c` propagate to `client` without an explicit send.
pub open spec fn auto_replicates(rep: Replicate, client: ClientId, c: ComponentId) -> bool {
    c == replicate_id() || (!self_writable(rep, client, c) && rep.auto_replicate_changes.includes(c))
}

/// The server's decision for component type `c`, given the snapshot entry and the live value.
pub open spec fn server_action(
    rep: Replicate,
    client: ClientId,
    c: ComponentId,
    old: Option<Component>,
    live: Option<Component>,
) -> EntryAction {
    match (old, live) {
        (Some(o), None) => EntryAction::Delete,
        (Some(o), Some(l)) => if !l.serializable() {
            EntryAction::Keep
        } else if !mirrors(rep, c) {
            EntryAction::Delete
        } else if auto_replicates(rep, client, c) && !o.same_value(&l) {
            EntryAction::Send
        } else {
            EntryAction::Keep
        },
        (None, Some(l)) => if l.serializable() && mirrors(rep, c) {
            EntryAction::Send
        } else {
            EntryAction::Keep
        },
        (None, None) => EntryAction::Keep,
    }
}

/// The owning client's decision for component type `c`.
pub open spec fn client_action(
    rep: Replicate,
    c: ComponentId,
    old: Option<Component>,
    live: Option<Component>,
) -> EntryAction {
    match live {
        Some(l) => if !l.serializable() || c == replicate_id() {
            EntryAction::Keep
        } else if rep.client_writable.includes(c) {
            match old {
                Some(o) => if o.same_value(&l) {
                    EntryAction::Keep
                } else {
                    EntryAction::Send
                },
                None => EntryAction::Send,
            }
        } else if old is Some {
            EntryAction::Delete
        } else {
            EntryAction::Keep
        },
        None => EntryAction::Keep,
    }
}

/// The decision of either side.
pub open spec fn entry_action(
    server_side: bool,
    rep: Replicate,
    client: ClientId,
    c: ComponentId,
    old: Option<Component>,
    live: Option<Component>,
) -> EntryAction {
    if server_side {
        server_action(rep, client, c, old, live)
    } else {
        client_action(rep, c, old, live)
    }
}

/// `new` is what the snapshot entry `old` becomes under `action`.
pub open spec fn applies_action(
    action: EntryAction,
    old: Option<Component>,
    new: Option<Component>,
    live: Option<Component>,
) -> bool {
    match action {
        EntryAction::Keep => new == old,
        EntryAction::Delete => new is None,
        EntryAction::Send => new is Some && live is Some && new->0.same_value(&live->0),
    }
}

/// The value behind an optional reference.
pub open spec fn deref_opt(o: Option<&Component>) -> Option<Component> {
    match o {
        Some(c) => Some(*c),
        None => None,
    }
}

fn option_same_client(a: Option<ClientId>, b: ClientId) -> (r: bool)
    ensures
        r == (a == Some(b)),
{
    match a {
        Some(x) => x.0 == b.0,
        None => false,
    }
}

/// Decides what one diff pass does with component type `c` of an entity.
pub fn decide_entry(
    server_side: bool,
    rep: &Replicate,
    client: ClientId,
    c: ComponentId,
    replicate_id: ComponentId,
    old: Option<&Component>,
    live: Option<&Component>,
) -> (r: EntryAction)
    requires
        replicate_id == crate::replication::replicate_id(),
    ensures
        r == entry_action(server_side, *rep, client, c, deref_opt(old), deref_opt(live)),
{
    let is_rep = c.0 == replicate_id.0;
    if server_side {
        match (old, live) {
            (Some(_), None) => EntryAction::Delete,
            (Some(o), Some(l)) => {
                if !l.is_serializable() {
                    EntryAction::Keep
                } else if !(is_rep || rep.replicated_components.contains(&c)) {
                    EntryAction::Delete
                } else {
                    let self_writable = option_same_client(rep.owner, client) && rep.client_writable.contains(&c);
                    let auto = is_rep || (!self_writable && rep.auto_replicate_changes.contains(&c));
                    if auto && !o.value_eq(l) {
                        EntryAction::Send
                    } else {
                        EntryAction::Keep
                    }
                }
            },
            (None, Some(l)) => {
                if l.is_serializable() && (is_rep || rep.replicated_components.contains(&c)) {
                    EntryAction::Send
                } else {
                    EntryAction::Keep
                }
            },
            (None, None) => EntryAction::Keep,
        }
    } else {
        match live {
            Some(l) => {
                if !l.is_serializable() || is_rep {
                    EntryAction::Keep
                } else if rep.client_writable.contains(&c) {
                    match old {
                        Some(o) => if o.value_eq(l) {
                            EntryAction::Keep
                        } else {
                            EntryAction::Send
                        },
                        None => EntryAction::Send,
                    }
                } else if old.is_some() {
                    EntryAction::Delete
                } else {
                    EntryAction::Keep
                }
            },
            None => EntryAction::Keep,
        }
    }
}

/// The decision for component type `c` of an entity whose snapshot is `old`.
pub open spec fn planned(
    server_side: bool,
    rep: Replicate,
    client: ClientId,
    world: World,
    entity_id: EntityId,
    old: Seq<Component>,
    c: ComponentId,
) -> EntryAction {
    entry_action(server_side, rep, client, c, entry_of(old, c), world.component_at(entity_id, c))
}

/// The component a `SetComponent` command carries.
pub open spec fn sent_value(cmd: NetEcsCommand) -> Option<Component> {
    match cmd {
        NetEcsCommand::SetComponent(_, v) => Some(v),
        _ => None,
    }
}

/// `sends` holds one `SetComponent` to `s` for each component type that `sending` names, and
/// each carries a copy of the live value.
pub open spec fn sends_exactly(
    sends: Seq<NetEcsCommand>,
    s: ServerEntityId,
    world: World,
    entity_id: EntityId,
    sending: spec_fn(ComponentId) -> bool,
) -> bool {
    &&& forall|k: int|
        0 <= k < sends.len() ==> {
            &&& (#[trigger] sends[k]).target() == s
            &&& sent_value(sends[k]) is Some
            &&& sending(sent_value(sends[k])->0.component_id)
            &&& world.component_at(entity_id, sent_value(sends[k])->0.component_id) is Some
            &&& sent_value(sends[k])->0.same_value(
                &world.component_at(entity_id, sent_value(sends[k])->0.component_id)->0,
            )
        }
    &&& forall|c: ComponentId|
        #[trigger] sending(c) ==> exists|k: int|
            0 <= k < sends.len() && sent_value(#[trigger] sends[k]) is Some && sent_value(sends[k])->0.component_id == c
    &&& forall|a: int, b: int|
        0 <= a < b < sends.len() ==> sent_value(sends[a])->0.component_id != sent_value(sends[b])->0.component_id
}

/// `deletes` holds one `DeleteComponent` to `s` for each component type that `deleting` names.
pub open spec fn deletes_exactly(
    deletes: Seq<NetEcsCommand>,
    s: ServerEntityId,
    deleting: spec_fn(ComponentId) -> bool,
) -> bool {
    &&& forall|k: int|
        0 <= k < deletes.len() ==> (#[trigger] deletes[k]) is DeleteComponent && deletes[k]->DeleteComponent_0 == s
            && deleting(deletes[k]->DeleteComponent_1)
    &&& forall|c: ComponentId|
        #[trigger] deleting(c) ==> exists|k: int|
            0 <= k < deletes.len() && #[trigger] deletes[k] == NetEcsCommand::DeleteComponent(s, c)
    &&& forall|a: int, b: int| 0 <= a < b < deletes.len() ==> #[trigger] deletes[a] != #[trigger] deletes[b]
}

/// Whether one of the first `i` listed components has type `c`.
pub open spec fn listed_before(lives: Seq<&Component>, i: int, c: ComponentId) -> bool {
    exists|j: int| 0 <= j < i && (#[trigger] lives[j]).component_id == c
}

/// Diffs one mirrored entity against the world: its new snapshot, the
/// `SetComponent` commands and the `DeleteComponent` commands it needs.
fn diff_entity(
    server_side: bool,
    rep: &Replicate,
    client: ClientId,
    replicate_id: ComponentId,
    world: &World,
    entity_id: EntityId,
    server_entity_id: ServerEntityId,
    old: Vec<Component>,
) -> (r: (Vec<Component>, Vec<NetEcsCommand>, Vec<NetEcsCommand>))
    requires
        world.wf(),
        distinct_ids(old@),
        replicate_id == crate::replication::replicate_id(),
    ensures
        distinct_ids(r.0@),
        forall|c: ComponentId|
            #[trigger] applies_action(
                planned(server_side, *rep, client, *world, entity_id, old@, c),
                entry_of(old@, c),
                entry_of(r.0@, c),
                world.component_at(entity_id, c),
            ),
        sends_exactly(
            r.1@,
            server_entity_id,
            *world,
            entity_id,
            |c: ComponentId| planned(server_side, *rep, client, *world, entity_id, old@, c) == EntryAction::Send,
        ),
        server_side ==> deletes_exactly(
            r.2@,
            server_entity_id,
            |c: ComponentId| planned(server_side, *rep, client, *world, entity_id, old@, c) == EntryAction::Delete,
        ),
        !server_side ==> r.2@.len() == 0,
{
    let ghost old_full = old@;
    let ghost plan = |c: ComponentId| planned(server_side, *rep, client, *world, entity_id, old_full, c);
    let lives = world.get_all_serializable_components(entity_id);
    let mut new: Vec<Component> = Vec::new();
    let mut sends: Vec<NetEcsCommand> = Vec::new();
    let mut deletes: Vec<NetEcsCommand> = Vec::new();
    let mut i: usize = 0;
    proof {
        world.lemma_stored_ids();
    }
    while i < lives.len()
        invariant
            world.wf(),
            distinct_ids(old@),
            old@ == old_full,
            replicate_id == crate::replication::replicate_id(),
            plan == (|c: ComponentId| planned(server_side, *rep, client, *world, entity_id, old_full, c)),
            world.lists_components(entity_id, lives@, |c: Component| c.serializable()),
            forall|k: (EntityId, ComponentId)| #[trigger] world@.contains_key(k) ==> world@[k].component_id == k.1,
            i <= lives@.len(),
            distinct_ids(new@),
            forall|c: ComponentId|
                (#[trigger] entry_of(new@, c) is Some) == (listed_before(lives@, i as int, c) && entry_of(old_full, c) is None
                    && plan(c) == EntryAction::Send),
            forall|c: ComponentId|
                #[trigger] entry_of(new@, c) is Some ==> world.component_at(entity_id, c) is Some
                    && entry_of(new@, c)->0.same_value(&world.component_at(entity_id, c)->0),
            sends_exactly(
                sends@,
                server_entity_id,
                *world,
                entity_id,
                |c: ComponentId| listed_before(lives@, i as int, c) && entry_of(old_full, c) is None && plan(c) == EntryAction::Send,
            ),
            deletes@.len() == 0,
        decreases lives.len() - i,
    {
        let l = lives[i];
        let c = l.component_id;
        let ghost before_new = new@;
        let ghost before_sends = sends@;
        proof {
            assert(world@.contains_key((entity_id, c)));
            assert(world.component_at(entity_id, c) == Some(*l));
            assert(!listed_before(lives@, i as int, c)) by {
                if listed_before(lives@, i as int, c) {
                    let j = choose|j: int| 0 <= j < i && (#[trigger] lives@[j]).component_id == c;
                    assert(lives@[j].component_id != lives@[i as int].component_id);
                }
            }
            assert forall|x: ComponentId| #[trigger] listed_before(lives@, i + 1, x) == (listed_before(lives@, i as int, x) || x == c) by {
                if listed_before(lives@, i + 1, x) && x != c {
                    let j = choose|j: int| 0 <= j < i + 1 && (#[trigger] lives@[j]).component_id == x;
                    assert(0 <= j < i && lives@[j].component_id == x);
                }
                if x == c {
                    assert(lives@[i as int].component_id == x);
                }
                if listed_before(lives@, i as int, x) {
                    let j = choose|j: int| 0 <= j < i && (#[trigger] lives@[j]).component_id == x;
                    assert(0 <= j < i + 1 && lives@[j].component_id == x);
                }
            }
        }
        if find_entry(&old, c).is_none() {
            let action = decide_entry(server_side, rep, client, c, replicate_id, None, Some(l));
            if action == EntryAction::Send {
                proof {
                    assert(entry_of(new@, c) is None);
                }
                let v = l.clone_value();
                proof { lemma_entry_push(new@, v); }
                new.push(v);
                let w = l.clone_value();
                sends.push(NetEcsCommand::SetComponent(server_entity_id, w));
                proof {
                    let pred = |x: ComponentId| listed_before(lives@, i + 1, x) && entry_of(old_full, x) is None && plan(x) == EntryAction::Send;
                    assert forall|k: int| 0 <= k < sends@.len() implies {
                        &&& (#[trigger] sends@[k]).target() == server_entity_id
                        &&& sent_value(sends@[k]) is Some
                        &&& pred(sent_value(sends@[k])->0.component_id)
                        &&& world.component_at(entity_id, sent_value(sends@[k])->0.component_id) is Some
                        &&& sent_value(sends@[k])->0.same_value(&world.component_at(entity_id, sent_value(sends@[k])->0.component_id)->0)
                    } by {
                        if k < before_sends.len() {
                            assert(sends@[k] == before_sends[k]);
                        }
                    }
                    assert forall|x: ComponentId| #[trigger] pred(x) implies exists|k: int|
                        0 <= k < sends@.len() && sent_value(#[trigger] sends@[k]) is Some && sent_value(sends@[k])->0.component_id == x by {
                        if x == c {
                            assert(sent_value(sends@[before_sends.len() as int]) == Some(w));
                        } else {
                            assert(listed_before(lives@, i as int, x));
                            let pred0 = |x: ComponentId| listed_before(lives@, i as int, x) && entry_of(old_full, x) is None && plan(x) == EntryAction::Send;
                            assert(pred0(x));
                            let k = choose|k: int| 0 <= k < before_sends.len() && sent_value(#[trigger] before_sends[k]) is Some && sent_value(before_sends[k])->0.component_id == x;
                            assert(sends@[k] == before_sends[k]);
                        }
                    }
                    assert forall|a: int, b: int| 0 <= a < b < sends@.len() implies sent_value(sends@[a])->0.component_id != sent_value(sends@[b])->0.component_id by {
                        assert(sends@[a] == before_sends[a]);
                        if b < before_sends.len() {
                            assert(sends@[b] == before_sends[b]);
                        } else {
                            assert(listed_before(lives@, i as int, sent_value(before_sends[a])->0.component_id));
                        }
                    }
                }
            } else {
                proof {
                    let pred = |x: ComponentId| listed_before(lives@, i + 1, x) && entry_of(old_full, x) is None && plan(x) == EntryAction::Send;
                    let pred0 = |x: ComponentId| listed_before(lives@, i as int, x) && entry_of(old_full, x) is None && plan(x) == EntryAction::Send;
                    assert(pred =~= pred0);
                }
            }
        } else {
            proof {
                let pred = |x: ComponentId| listed_before(lives@, i + 1, x) && entry_of(old_full, x) is None && plan(x) == EntryAction::Send;
                let pred0 = |x: ComponentId| listed_before(lives@, i as int, x) && entry_of(old_full, x) is None && plan(x) == EntryAction::Send;
                assert(pred =~= pred0);
            }
        }
        i = i + 1;
    }
    proof {
        let pa = |x: ComponentId| listed_before(lives@, lives@.len() as int, x) && entry_of(old_full, x) is None && plan(x) == EntryAction::Send;
        let pb = |x: ComponentId| plan(x) == EntryAction::Send && entry_of(old@, x) is None;
        assert forall|x: ComponentId| #[trigger] pa(x) == pb(x) by {
            if entry_of(old_full, x) is None && plan(x) == EntryAction::Send {
                assert(world@.contains_key((entity_id, x)));
                assert(world@[(entity_id, x)].serializable());
                let k = choose|k: int| 0 <= k < lives@.len() && (#[trigger] lives@[k]).component_id == x;
                assert(listed_before(lives@, lives@.len() as int, x));
            }
        }
        assert(pa =~= pb);
        let pd = |x: ComponentId| server_side && plan(x) == EntryAction::Delete && entry_of(old@, x) is None;
        assert forall|k: int| 0 <= k < deletes@.len() implies (#[trigger] deletes@[k]) is DeleteComponent by {}
        assert forall|x: ComponentId| !#[trigger] pd(x) by {}
    }
    let mut old = old;
    while old.len() > 0
        invariant
            world.wf(),
            distinct_ids(old_full),
            distinct_ids(old@),
            replicate_id == crate::replication::replicate_id(),
            plan == (|c: ComponentId| planned(server_side, *rep, client, *world, entity_id, old_full, c)),
            forall|k: (EntityId, ComponentId)| #[trigger] world@.contains_key(k) ==> world@[k].component_id == k.1,
            distinct_ids(new@),
            forall|c: ComponentId| #[trigger] entry_of(old@, c) is Some ==> entry_of(new@, c) is None && entry_of(old_full, c) == entry_of(old@, c),
            forall|c: ComponentId| #[trigger] entry_of(old@, c) is None ==> applies_action(plan(c), entry_of(old_full, c), entry_of(new@, c), world.component_at(entity_id, c)),
            sends_exactly(
                sends@,
                server_entity_id,
                *world,
                entity_id,
                |c: ComponentId| plan(c) == EntryAction::Send && entry_of(old@, c) is None,
            ),
            deletes_exactly(
                deletes@,
                server_entity_id,
                |c: ComponentId| server_side && plan(c) == EntryAction::Delete && entry_of(old@, c) is None,
            ),
        decreases old.len(),
    {
        let ghost before_old = old@;
        let ghost before_new = new@;
        let ghost before_sends = sends@;
        let ghost before_deletes = deletes@;
        let o = match old.pop() {
            Some(o) => o,
            None => { return (new, sends, deletes); },
        };
        let c = o.component_id;
        proof {
            assert(before_old.drop_last() =~= old@);
            lemma_entry_at(before_old, before_old.len() - 1);
            lemma_entry_pop(before_old);
        }
        let live = world.get_component(entity_id, c);
        let action = decide_entry(server_side, rep, client, c, replicate_id, Some(&o), live);
        let ghost sending = |x: ComponentId| plan(x) == EntryAction::Send && entry_of(old@, x) is None;
        let ghost sending0 = |x: ComponentId| plan(x) == EntryAction::Send && entry_of(before_old, x) is None;
        let ghost deleting = |x: ComponentId| server_side && plan(x) == EntryAction::Delete && entry_of(old@, x) is None;
        let ghost deleting0 = |x: ComponentId| server_side && plan(x) == EntryAction::Delete && entry_of(before_old, x) is None;
        assert(plan(c) == action);
        match action {
            EntryAction::Keep => {
                proof { lemma_entry_push(new@, o); }
                new.push(o);
                proof {
                    assert(sending =~= sending0);
                    assert(deleting =~= deleting0);
                }
            },
            EntryAction::Delete => {
                if server_side {
                    deletes.push(NetEcsCommand::DeleteComponent(server_entity_id, c));
                    proof {
                        assert forall|k: int| 0 <= k < deletes@.len() implies (#[trigger] deletes@[k]) is DeleteComponent && deletes@[k]->DeleteComponent_0 == server_entity_id
                            && deleting(deletes@[k]->DeleteComponent_1) by {
                            if k < before_deletes.len() {
                                assert(deletes@[k] == before_deletes[k]);
                                assert(deleting0(deletes@[k]->DeleteComponent_1));
                            }
                        }
                        assert forall|x: ComponentId| #[trigger] deleting(x) implies exists|k: int|
                            0 <= k < deletes@.len() && #[trigger] deletes@[k] == NetEcsCommand::DeleteComponent(server_entity_id, x) by {
                            if x == c {
                                assert(deletes@[before_deletes.len() as int] == NetEcsCommand::DeleteComponent(server_entity_id, x));
                            } else {
                                assert(deleting0(x));
                                let k = choose|k: int| 0 <= k < before_deletes.len() && #[trigger] before_deletes[k] == NetEcsCommand::DeleteComponent(server_entity_id, x);
                                assert(deletes@[k] == before_deletes[k]);
                            }
                        }
                        assert forall|a: int, b: int| 0 <= a < b < deletes@.len() implies #[trigger] deletes@[a] != #[trigger] deletes@[b] by {
                            assert(deletes@[a] == before_deletes[a]);
                            if b < before_deletes.len() {
                                assert(deletes@[b] == before_deletes[b]);
                            } else {
                                assert(deleting0(before_deletes[a]->DeleteComponent_1));
                            }
                        }
                    }
                } else {
                    proof {
                        assert(deleting =~= deleting0);
                    }
                }
                proof {
                    assert(sending =~= sending0);
                }
            },
            EntryAction::Send => {
                let l = match live {
                    Some(l) => l,
                    None => { return (new, sends, deletes); },
                };
                let v = l.clone_value();
                proof { lemma_entry_push(new@, v); }
                new.push(v);
                let w = l.clone_value();
                sends.push(NetEcsCommand::SetComponent(server_entity_id, w));
                proof {
                    assert(deleting =~= deleting0);
                    assert forall|k: int| 0 <= k < sends@.len() implies {
                        &&& (#[trigger] sends@[k]).target() == server_entity_id
                        &&& sent_value(sends@[k]) is Some
                        &&& sending(sent_value(sends@[k])->0.component_id)
                        &&& world.component_at(entity_id, sent_value(sends@[k])->0.component_id) is Some
                        &&& sent_value(sends@[k])->0.same_value(&world.component_at(entity_id, sent_value(sends@[k])->0.component_id)->0)
                    } by {
                        if k < before_sends.len() {
                            assert(sends@[k] == before_sends[k]);
                            assert(sending0(sent_value(sends@[k])->0.component_id));
                        }
                    }
                    assert forall|x: ComponentId| #[trigger] sending(x) implies exists|k: int|
                        0 <= k < sends@.len() && sent_value(#[trigger] sends@[k]) is Some && sent_value(sends@[k])->0.component_id == x by {
                        if x == c {
                            assert(sent_value(sends@[before_sends.len() as int]) == Some(w));
                        } else {
                            assert(sending0(x));
                            let k = choose|k: int| 0 <= k < before_sends.len() && sent_value(#[trigger] before_sends[k]) is Some && sent_value(before_sends[k])->0.component_id == x;
                            assert(sends@[k] == before_sends[k]);
                        }
                    }
                    assert forall|a: int, b: int| 0 <= a < b < sends@.len() implies sent_value(sends@[a])->0.component_id != sent_value(sends@[b])->0.component_id by {
                        assert(sends@[a] == before_sends[a]);
                        assert(sending0(sent_value(before_sends[a])->0.component_id));
                        if b < before_sends.len() {
                            assert(sends@[b] == before_sends[b]);
                        }
                    }
                }
            },
        }
    }
    proof {
        assert forall|x: ComponentId| #[trigger] entry_of(old@, x) is None by {
            assert(old@.len() == 0);
        }
        assert forall|x: ComponentId| #[trigger] applies_action(
            planned(server_side, *rep, client, *world, entity_id, old_full, x),
            entry_of(old_full, x),
            entry_of(new@, x),
            world.component_at(entity_id, x),
        ) by {
            assert(entry_of(old@, x) is None);
            assert(plan(x) == planned(server_side, *rep, client, *world, entity_id, old_full, x));
        }
        let sending = |x: ComponentId| plan(x) == EntryAction::Send && entry_of(old@, x) is None;
        let deleting = |x: ComponentId| server_side && plan(x) == EntryAction::Delete && entry_of(old@, x) is None;
        assert(sending =~= (|c: ComponentId| planned(server_side, *rep, client, *world, entity_id, old_full, c) == EntryAction::Send));
        if server_side {
            assert(deleting =~= (|c: ComponentId| planned(server_side, *rep, client, *world, entity_id, old_full, c) == EntryAction::Delete));
        } else {
            if deletes@.len() > 0 {
                assert(deleting(deletes@[0]->DeleteComponent_1));
            }
        }
    }
    (new, sends, deletes)
}

/// One mirrored entity: its server id and the last values sent or received for it.
#[derive(Debug)]
pub struct TrackedEntity {
    pub server_entity_id: ServerEntityId,
    pub components: Vec<Component>,
}

/// The snapshot that a list of mirrored entities describes.
pub open spec fn snapshot_of(entities: Seq<TrackedEntity>) -> Map<ServerEntityId, Seq<Component>> {
    Map::new(
        |s: ServerEntityId| exists|i: int| 0 <= i < entities.len() && (#[trigger] entities[i]).server_entity_id == s,
        |s: ServerEntityId| entities[choose|i: int| 0 <= i < entities.len() && (#[trigger] entities[i]).server_entity_id == s].components@,
    )
}

/// Server ids are unique and each entity's entries have distinct types.
pub open spec fn tracked_wf(entities: Seq<TrackedEntity>) -> bool {
    &&& forall|a: int, b: int|
        0 <= a < entities.len() && 0 <= b < entities.len() && a != b ==> (#[trigger] entities[a]).server_entity_id
            != (#[trigger] entities[b]).server_entity_id
    &&& forall|a: int| 0 <= a < entities.len() ==> distinct_ids((#[trigger] entities[a]).components@)
}

/// What the snapshot held for `s` before a pass; empty if `s` was not mirrored.
pub open spec fn prior(snapshot: Map<ServerEntityId, Seq<Component>>, s: ServerEntityId) -> Seq<Component> {
    if snapshot.contains_key(s) {
        snapshot[s]
    } else {
        Seq::empty()
    }
}

proof fn lemma_snapshot_at(entities: Seq<TrackedEntity>, i: int)
    requires
        tracked_wf(entities),
        0 <= i < entities.len(),
    ensures
        snapshot_of(entities).contains_key(entities[i].server_entity_id),
        snapshot_of(entities)[entities[i].server_entity_id] == entities[i].components@,
{
    let s = entities[i].server_entity_id;
    assert(snapshot_of(entities).contains_key(s));
    let j = choose|j: int| 0 <= j < entities.len() && (#[trigger] entities[j]).server_entity_id == s;
    assert(i == j);
}

proof fn lemma_snapshot_push(entities: Seq<TrackedEntity>, t: TrackedEntity)
    requires
        tracked_wf(entities),
        distinct_ids(t.components@),
        !snapshot_of(entities).contains_key(t.server_entity_id),
    ensures
        tracked_wf(entities.push(t)),
        snapshot_of(entities.push(t)) == snapshot_of(entities).insert(t.server_entity_id, t.components@),
{
    let n = entities.push(t);
    assert forall|a: int, b: int|
        0 <= a < n.len() && 0 <= b < n.len() && a != b implies (#[trigger] n[a]).server_entity_id != (#[trigger] n[b]).server_entity_id by {
        if a < entities.len() && b < entities.len() {
            assert(n[a] == entities[a] && n[b] == entities[b]);
        } else if a < entities.len() {
            assert(n[a] == entities[a]);
            assert(snapshot_of(entities).contains_key(n[a].server_entity_id));
        } else if b < entities.len() {
            assert(n[b] == entities[b]);
            assert(snapshot_of(entities).contains_key(n[b].server_entity_id));
        }
    }
    assert forall|a: int| 0 <= a < n.len() implies distinct_ids((#[trigger] n[a]).components@) by {
        if a < entities.len() {
            assert(n[a] == entities[a]);
        }
    }
    assert forall|s: ServerEntityId| #[trigger] snapshot_of(n).contains_key(s) == snapshot_of(entities).insert(t.server_entity_id, t.components@).contains_key(s)
        && (snapshot_of(n).contains_key(s) ==> snapshot_of(n)[s] == snapshot_of(entities).insert(t.server_entity_id, t.components@)[s]) by {
        if s == t.server_entity_id {
            lemma_snapshot_at(n, entities.len() as int);
        } else if snapshot_of(entities).contains_key(s) {
            let i = choose|i: int| 0 <= i < entities.len() && (#[trigger] entities[i]).server_entity_id == s;
            lemma_snapshot_at(entities, i);
            assert(n[i] == entities[i]);
            lemma_snapshot_at(n, i);
        } else if snapshot_of(n).contains_key(s) {
            let i = choose|i: int| 0 <= i < n.len() && (#[trigger] n[i]).server_entity_id == s;
            assert(i < entities.len());
            assert(n[i] == entities[i]);
        }
    }
    assert(snapshot_of(n) =~= snapshot_of(entities).insert(t.server_entity_id, t.components@));
}

proof fn lemma_snapshot_remove(entities: Seq<TrackedEntity>, i: int)
    requires
        tracked_wf(entities),
        0 <= i < entities.len(),
    ensures
        tracked_wf(entities.remove(i)),
        snapshot_of(entities.remove(i)) == snapshot_of(entities).remove(entities[i].server_entity_id),
{
    let n = entities.remove(i);
    let s0 = entities[i].server_entity_id;
    assert forall|a: int| 0 <= a < n.len() implies #[trigger] n[a] == entities[if a < i { a } else { a + 1 }] by {}
    assert forall|a: int, b: int|
        0 <= a < n.len() && 0 <= b < n.len() && a != b implies (#[trigger] n[a]).server_entity_id != (#[trigger] n[b]).server_entity_id by {
        assert(n[a] == entities[if a < i { a } else { a + 1 }]);
        assert(n[b] == entities[if b < i { b } else { b + 1 }]);
    }
    assert forall|a: int| 0 <= a < n.len() implies distinct_ids((#[trigger] n[a]).components@) by {
        assert(n[a] == entities[if a < i { a } else { a + 1 }]);
    }
    assert forall|s: ServerEntityId| #[trigger] snapshot_of(n).contains_key(s) == snapshot_of(entities).remove(s0).contains_key(s)
        && (snapshot_of(n).contains_key(s) ==> snapshot_of(n)[s] == snapshot_of(entities).remove(s0)[s]) by {
        if snapshot_of(n).contains_key(s) {
            let a = choose|a: int| 0 <= a < n.len() && (#[trigger] n[a]).server_entity_id == s;
            let j = if a < i { a } else { a + 1 };
            assert(n[a] == entities[j]);
            lemma_snapshot_at(entities, j);
            lemma_snapshot_at(n, a);
        }
        if snapshot_of(entities).contains_key(s) && s != s0 {
            let j = choose|j: int| 0 <= j < entities.len() && (#[trigger] entities[j]).server_entity_id == s;
            let a = if j < i { j } else { j - 1 };
            assert(j != i);
            assert(n[a] == entities[j]);
        }
        if s == s0 && snapshot_of(n).contains_key(s) {
            let a = choose|a: int| 0 <= a < n.len() && (#[trigger] n[a]).server_entity_id == s;
            assert(n[a] == entities[if a < i { a } else { a + 1 }]);
        }
    }
    assert(snapshot_of(n) =~= snapshot_of(entities).remove(s0));
}

/// Whether `s` has an entry in the list.
fn contains_tracked(entities: &Vec<TrackedEntity>, s: ServerEntityId) -> (r: bool)
    requires
        tracked_wf(entities@),
    ensures
        r == snapshot_of(entities@).contains_key(s),
{
    let mut i: usize = 0;
    while i < entities.len()
        invariant
            tracked_wf(entities@),
            i <= entities@.len(),
            forall|j: int| 0 <= j < i ==> (#[trigger] entities@[j]).server_entity_id != s,
        decreases entities.len() - i,
    {
        if entities[i].server_entity_id.0.0 == s.0.0 {
            proof { lemma_snapshot_at(entities@, i as int); }
            return true;
        }
        i = i + 1;
    }
    false
}

/// Takes the snapshot of `s` out of the list, if `s` is mirrored.
fn take_tracked(entities: &mut Vec<TrackedEntity>, s: ServerEntityId) -> (r: Option<Vec<Component>>)
    requires
        tracked_wf(old(entities)@),
    ensures
        tracked_wf(final(entities)@),
        snapshot_of(final(entities)@) == snapshot_of(old(entities)@).remove(s),
        r is Some <==> snapshot_of(old(entities)@).contains_key(s),
        r is Some ==> r->0@ == snapshot_of(old(entities)@)[s] && distinct_ids(r->0@),
{
    let mut i: usize = 0;
    while i < entities.len()
        invariant
            tracked_wf(entities@),
            entities@ == old(entities)@,
            i <= entities@.len(),
            forall|j: int| 0 <= j < i ==> (#[trigger] entities@[j]).server_entity_id != s,
        decreases entities.len() - i,
    {
        if entities[i].server_entity_id.0.0 == s.0.0 {
            proof {
                lemma_snapshot_at(entities@, i as int);
                lemma_snapshot_remove(entities@, i as int);
            }
            let t = entities.remove(i);
            return Some(t.components);
        }
        i = i + 1;
    }
    assert(!snapshot_of(entities@).contains_key(s));
    assert(snapshot_of(entities@).remove(s) =~= snapshot_of(entities@));
    None
}

/// On the server: whether entity `s` should exist on `client`.
pub open spec fn server_tracks(world: World, client: ClientId, s: ServerEntityId) -> bool {
    &&& world.replicate_of(s.0) is Some
    &&& (world.replicate_of(s.0)->0.owner == Some(client) || world.replicate_of(s.0)->0.replicate_to.includes(client))
}

/// The server's decision for component type `c` of entity `s`, against the snapshot `before`.
pub open spec fn server_plan(
    world: World,
    client: ClientId,
    before: Map<ServerEntityId, Seq<Component>>,
    s: ServerEntityId,
    c: ComponentId,
) -> EntryAction {
    planned(true, world.replicate_of(s.0)->0, client, world, s.0, prior(before, s), c)
}

/// A command that a server pass may send.
#[verifier::opaque]
pub open spec fn server_command_ok(
    world: World,
    client: ClientId,
    before: Map<ServerEntityId, Seq<Component>>,
    cmd: NetEcsCommand,
) -> bool {
    match cmd {
        NetEcsCommand::SetComponent(s, v) => {
            &&& server_tracks(world, client, s)
            &&& server_plan(world, client, before, s, v.component_id) == EntryAction::Send
            &&& world.component_at(s.0, v.component_id) is Some
            &&& v.same_value(&world.component_at(s.0, v.component_id)->0)
        },
        NetEcsCommand::DeleteComponent(s, c) => server_tracks(world, client, s) && server_plan(
            world,
            client,
            before,
            s,
            c,
        ) == EntryAction::Delete,
        NetEcsCommand::DeleteEntity(s) => before.contains_key(s) && !server_tracks(world, client, s),
    }
}

/// Whether a command sends component type `c` of entity `s`.
pub open spec fn sends_component(cmd: NetEcsCommand, s: ServerEntityId, c: ComponentId) -> bool {
    cmd is SetComponent && cmd.target() == s && sent_value(cmd)->0.component_id == c
}

/// Every command in `sets` is a valid `SetComponent` for an entity in `kept`, each needed
/// send for those entities is there, and no component is sent twice.
#[verifier::opaque]
pub open spec fn sets_cover(
    world: World,
    client: ClientId,
    before: Map<ServerEntityId, Seq<Component>>,
    kept: Map<ServerEntityId, Seq<Component>>,
    sets: Seq<NetEcsCommand>,
) -> bool {
    &&& forall|k: int| 0 <= k < sets.len() ==> server_command_ok(world, client, before, #[trigger] sets[k])
        && sets[k] is SetComponent && kept.contains_key(sets[k].target())
    &&& forall|s: ServerEntityId, c: ComponentId|
        kept.contains_key(s) && #[trigger] server_plan(world, client, before, s, c) == EntryAction::Send
            ==> exists|k: int| 0 <= k < sets.len() && sends_component(#[trigger] sets[k], s, c)
    &&& forall|a: int, b: int, s: ServerEntityId, c: ComponentId|
        0 <= a < b < sets.len() && #[trigger] sends_component(sets[a], s, c) ==> !#[trigger] sends_component(sets[b], s, c)
}

/// Every command in `deletes` is a valid `DeleteComponent`, and each needed one for
/// the entities in `kept` is there.
#[verifier::opaque]
pub open spec fn deletes_cover(
    world: World,
    client: ClientId,
    before: Map<ServerEntityId, Seq<Component>>,
    kept: Map<ServerEntityId, Seq<Component>>,
    deletes: Seq<NetEcsCommand>,
) -> bool {
    &&& forall|k: int| 0 <= k < deletes.len() ==> server_command_ok(world, client, before, #[trigger] deletes[k])
        && deletes[k] is DeleteComponent && kept.contains_key(deletes[k].target())
    &&& forall|s: ServerEntityId, c: ComponentId|
        kept.contains_key(s) && #[trigger] server_plan(world, client, before, s, c) == EntryAction::Delete
            ==> exists|k: int| 0 <= k < deletes.len() && #[trigger] deletes[k] == NetEcsCommand::DeleteComponent(s, c)
    &&& forall|a: int, b: int| 0 <= a < b < deletes.len() ==> #[trigger] deletes[a] != #[trigger] deletes[b]
}

/// Each entity in `kept` holds what the server's decisions make of its prior snapshot.
#[verifier::opaque]
pub open spec fn kept_ok(
    world: World,
    client: ClientId,
    before: Map<ServerEntityId, Seq<Component>>,
    kept: Map<ServerEntityId, Seq<Component>>,
) -> bool {
    forall|s: ServerEntityId, c: ComponentId|
        kept.contains_key(s) ==> #[trigger] applies_action(
            server_plan(world, client, before, s, c),
            entry_of(prior(before, s), c),
            entry_of(kept[s], c),
            world.component_at(s.0, c),
        )
}

/// Diffs one entity that stays on the client and records the result.
fn server_step(
    rep: &Replicate,
    client: ClientId,
    rid: ComponentId,
    world: &World,
    entity_id: EntityId,
    before: Ghost<Map<ServerEntityId, Seq<Component>>>,
    old_components: Vec<Component>,
    kept: &mut Vec<TrackedEntity>,
    sets: &mut Vec<NetEcsCommand>,
    deletes: &mut Vec<NetEcsCommand>,
)
    requires
        world.wf(),
        rid == replicate_id(),
        world.replicate_of(entity_id) == Some(*rep),
        server_tracks(*world, client, ServerEntityId(entity_id)),
        old_components@ == prior(before@, ServerEntityId(entity_id)),
        distinct_ids(old_components@),
        tracked_wf(old(kept)@),
        !snapshot_of(old(kept)@).contains_key(ServerEntityId(entity_id)),
        kept_ok(*world, client, before@, snapshot_of(old(kept)@)),
        sets_cover(*world, client, before@, snapshot_of(old(kept)@), old(sets)@),
        deletes_cover(*world, client, before@, snapshot_of(old(kept)@), old(deletes)@),
    ensures
        tracked_wf(final(kept)@),
        forall|t: ServerEntityId| #[trigger] snapshot_of(final(kept)@).contains_key(t) == (snapshot_of(old(kept)@).contains_key(t)
            || t == ServerEntityId(entity_id)),
        kept_ok(*world, client, before@, snapshot_of(final(kept)@)),
        sets_cover(*world, client, before@, snapshot_of(final(kept)@), final(sets)@),
        deletes_cover(*world, client, before@, snapshot_of(final(kept)@), final(deletes)@),
{
    let s = ServerEntityId(entity_id);
    let ghost prev_kept = snapshot_of(kept@);
    let ghost prev_sets = sets@;
    let ghost prev_cdel = deletes@;
    let ghost oc = old_components@;
    let (new_components, mut sends, mut dels) = diff_entity(true, rep, client, rid, world, entity_id, s, old_components);
    let ghost sends_s = sends@;
    let ghost deletes_s = dels@;
    let ghost new_s = new_components@;
    proof {
        lemma_snapshot_push(kept@, TrackedEntity { server_entity_id: s, components: new_components });
    }
    kept.push(TrackedEntity { server_entity_id: s, components: new_components });
    sets.append(&mut sends);
    deletes.append(&mut dels);
    proof {
        let before = before@;
        assert(snapshot_of(kept@) == prev_kept.insert(s, new_s));
        assert(sets@ == prev_sets + sends_s);
        assert(deletes@ == prev_cdel + deletes_s);
        assert((|c: ComponentId| planned(true, *rep, client, *world, entity_id, oc, c) == EntryAction::Send)
            =~= (|c: ComponentId| server_plan(*world, client, before, s, c) == EntryAction::Send));
        lemma_kept_extend(*world, client, before, prev_kept, s, new_s);
        lemma_sets_extend(*world, client, before, prev_kept, s, new_s, prev_sets, sends_s);
        let dpred = |c: ComponentId| server_plan(*world, client, before, s, c) == EntryAction::Delete;
        assert((|c: ComponentId| planned(true, *rep, client, *world, entity_id, oc, c) == EntryAction::Delete) =~= dpred);
        lemma_deletes_extend(*world, client, before, prev_kept, s, new_s, prev_cdel, deletes_s, dpred);
    }
}

proof fn lemma_kept_extend(
    world: World,
    client: ClientId,
    before: Map<ServerEntityId, Seq<Component>>,
    kept: Map<ServerEntityId, Seq<Component>>,
    s: ServerEntityId,
    new_s: Seq<Component>,
)
    requires
        kept_ok(world, client, before, kept),
        forall|c: ComponentId| #[trigger] applies_action(
            planned(true, world.replicate_of(s.0)->0, client, world, s.0, prior(before, s), c),
            entry_of(prior(before, s), c),
            entry_of(new_s, c),
            world.component_at(s.0, c),
        ),
    ensures
        kept_ok(world, client, before, kept.insert(s, new_s)),
{
    reveal(kept_ok);
    let n = kept.insert(s, new_s);
    assert forall|t: ServerEntityId, c: ComponentId| n.contains_key(t) implies #[trigger] applies_action(
        server_plan(world, client, before, t, c),
        entry_of(prior(before, t), c),
        entry_of(n[t], c),
        world.component_at(t.0, c),
    ) by {
        if t != s {
            assert(kept.contains_key(t));
        } else {
            assert(applies_action(
                planned(true, world.replicate_of(s.0)->0, client, world, s.0, prior(before, s), c),
                entry_of(prior(before, s), c),
                entry_of(new_s, c),
                world.component_at(s.0, c),
            ));
        }
    }
}

#[verifier::rlimit(50)]
proof fn lemma_sets_extend(
    world: World,
    client: ClientId,
    before: Map<ServerEntityId, Seq<Component>>,
    kept: Map<ServerEntityId, Seq<Component>>,
    s: ServerEntityId,
    new_s: Seq<Component>,
    prev: Seq<NetEcsCommand>,
    sends: Seq<NetEcsCommand>,
)
    requires
        !kept.contains_key(s),
        server_tracks(world, client, s),
        sets_cover(world, client, before, kept, prev),
        sends_exactly(sends, s, world, s.0, |c: ComponentId| server_plan(world, client, before, s, c) == EntryAction::Send),
    ensures
        sets_cover(world, client, before, kept.insert(s, new_s), prev + sends),
{
    reveal(sets_cover);
    let n = kept.insert(s, new_s);
    let all = prev + sends;
    let pred = |c: ComponentId| server_plan(world, client, before, s, c) == EntryAction::Send;
    assert forall|k: int| 0 <= k < all.len() implies server_command_ok(world, client, before, #[trigger] all[k])
        && all[k] is SetComponent && n.contains_key(all[k].target()) by {
        if k >= prev.len() {
            assert(all[k] == sends[k - prev.len()]);
            let v = sent_value(sends[k - prev.len()])->0;
            assert(pred(v.component_id));
            assert(all[k] == NetEcsCommand::SetComponent(s, v));
            reveal(server_command_ok);
        } else {
            assert(all[k] == prev[k]);
        }
    }
    assert forall|t: ServerEntityId, c: ComponentId|
        n.contains_key(t) && #[trigger] server_plan(world, client, before, t, c) == EntryAction::Send
            implies exists|k: int| 0 <= k < all.len() && sends_component(#[trigger] all[k], t, c) by {
        if t == s {
            assert(pred(c));
            let k = choose|k: int| 0 <= k < sends.len() && sent_value(#[trigger] sends[k]) is Some && sent_value(sends[k])->0.component_id == c;
            assert(all[prev.len() + k] == sends[k]);
            assert(sends_component(all[prev.len() + k], t, c));
        } else {
            assert(kept.contains_key(t));
            let k = choose|k: int| 0 <= k < prev.len() && sends_component(#[trigger] prev[k], t, c);
            assert(all[k] == prev[k]);
        }
    }
    assert forall|a: int, b: int, t: ServerEntityId, c: ComponentId|
        0 <= a < b < all.len() && #[trigger] sends_component(all[a], t, c) implies !#[trigger] sends_component(all[b], t, c) by {
        if b >= prev.len() {
            assert(all[b] == sends[b - prev.len()]);
            if a >= prev.len() {
                assert(all[a] == sends[a - prev.len()]);
            } else {
                assert(all[a] == prev[a]);
                assert(kept.contains_key(prev[a].target()));
            }
        } else {
            assert(all[a] == prev[a]);
            assert(all[b] == prev[b]);
        }
    }
}

#[verifier::rlimit(50)]
proof fn lemma_deletes_extend(
    world: World,
    client: ClientId,
    before: Map<ServerEntityId, Seq<Component>>,
    kept: Map<ServerEntityId, Seq<Component>>,
    s: ServerEntityId,
    new_s: Seq<Component>,
    prev: Seq<NetEcsCommand>,
    dels: Seq<NetEcsCommand>,
    pred: spec_fn(ComponentId) -> bool,
)
    requires
        server_tracks(world, client, s),
        !kept.contains_key(s),
        deletes_cover(world, client, before, kept, prev),
        deletes_exactly(dels, s, pred),
        forall|c: ComponentId| #[trigger] pred(c) == (server_plan(world, client, before, s, c) == EntryAction::Delete),
    ensures
        deletes_cover(world, client, before, kept.insert(s, new_s), prev + dels),
{
    reveal(deletes_cover);
    let n = kept.insert(s, new_s);
    let all = prev + dels;
    assert forall|k: int| 0 <= k < all.len() implies server_command_ok(world, client, before, #[trigger] all[k])
        && all[k] is DeleteComponent && n.contains_key(all[k].target()) by {
        if k >= prev.len() {
            assert(all[k] == dels[k - prev.len()]);
            let c = dels[k - prev.len()]->DeleteComponent_1;
            assert(pred(c));
            assert(all[k] == NetEcsCommand::DeleteComponent(s, c));
            reveal(server_command_ok);
        } else {
            assert(all[k] == prev[k]);
        }
    }
    assert forall|t: ServerEntityId, c: ComponentId|
        n.contains_key(t) && #[trigger] server_plan(world, client, before, t, c) == EntryAction::Delete
            implies exists|k: int| 0 <= k < all.len() && #[trigger] all[k] == NetEcsCommand::DeleteComponent(t, c) by {
        if t == s {
            assert(pred(c));
            let k = choose|k: int| 0 <= k < dels.len() && #[trigger] dels[k] == NetEcsCommand::DeleteComponent(s, c);
            assert(all[prev.len() + k] == dels[k]);
        } else {
            assert(kept.contains_key(t));
            let k = choose|k: int| 0 <= k < prev.len() && #[trigger] prev[k] == NetEcsCommand::DeleteComponent(t, c);
            assert(all[k] == prev[k]);
        }
    }
    assert forall|a: int, b: int| 0 <= a < b < all.len() implies #[trigger] all[a] != #[trigger] all[b] by {
        if b >= prev.len() {
            assert(all[b] == dels[b - prev.len()]);
            if a >= prev.len() {
                assert(all[a] == dels[a - prev.len()]);
            } else {
                assert(all[a] == prev[a]);
                assert(kept.contains_key(prev[a].target()));
            }
        } else {
            assert(all[a] == prev[a]);
            assert(all[b] == prev[b]);
        }
    }
}

/// The three command lists of a server pass, put together, meet `server_update`'s contract.
/// Where a command goes in a pass: updates, then entity deletions, then component deletions.
pub open spec fn command_rank(cmd: NetEcsCommand) -> int {
    match cmd {
        NetEcsCommand::SetComponent(_, _) => 0,
        NetEcsCommand::DeleteEntity(_) => 1,
        NetEcsCommand::DeleteComponent(_, _) => 2,
    }
}

proof fn lemma_command_order(s1: Seq<NetEcsCommand>, s2: Seq<NetEcsCommand>, s3: Seq<NetEcsCommand>)
    requires
        forall|k: int| 0 <= k < s1.len() ==> (#[trigger] s1[k]) is SetComponent,
        forall|k: int| 0 <= k < s2.len() ==> (#[trigger] s2[k]) is DeleteEntity,
        forall|k: int| 0 <= k < s3.len() ==> (#[trigger] s3[k]) is DeleteComponent,
        forall|a: int, b: int| 0 <= a < b < s2.len() ==> #[trigger] s2[a] != #[trigger] s2[b],
        forall|a: int, b: int| 0 <= a < b < s3.len() ==> #[trigger] s3[a] != #[trigger] s3[b],
    ensures
        ({
            let cmds = s1 + s2 + s3;
            &&& forall|a: int, b: int| 0 <= a < b < cmds.len() ==> command_rank(#[trigger] cmds[a]) <= command_rank(#[trigger] cmds[b])
            &&& forall|a: int, b: int| 0 <= a < b < cmds.len() && !(cmds[a] is SetComponent) ==> #[trigger] cmds[a] != #[trigger] cmds[b]
        }),
{
    let cmds = s1 + s2 + s3;
    let n1 = s1.len() as int;
    let n2 = s2.len() as int;
    assert forall|k: int| 0 <= k < cmds.len() implies command_rank(#[trigger] cmds[k]) == if k < n1 {
        0int
    } else if k < n1 + n2 {
        1int
    } else {
        2int
    } by {
        if k < n1 {
            assert(cmds[k] == s1[k]);
        } else if k < n1 + n2 {
            assert(cmds[k] == s2[k - n1]);
        } else {
            assert(cmds[k] == s3[k - n1 - n2]);
        }
    }
    assert forall|a: int, b: int| 0 <= a < b < cmds.len() && !(cmds[a] is SetComponent) implies #[trigger] cmds[a] != #[trigger] cmds[b] by {
        if a < n1 {
            assert(cmds[a] == s1[a]);
        } else if a < n1 + n2 {
            assert(cmds[a] == s2[a - n1]);
            if b < n1 + n2 {
                assert(cmds[b] == s2[b - n1]);
            } else {
                assert(cmds[b] == s3[b - n1 - n2]);
            }
        } else {
            assert(cmds[a] == s3[a - n1 - n2]);
            assert(cmds[b] == s3[b - n1 - n2]);
        }
    }
}

proof fn lemma_server_commands(
    world: World,
    client: ClientId,
    before: Map<ServerEntityId, Seq<Component>>,
    kept: Map<ServerEntityId, Seq<Component>>,
    s1: Seq<NetEcsCommand>,
    s2: Seq<NetEcsCommand>,
    s3: Seq<NetEcsCommand>,
)
    requires
        forall|s: ServerEntityId| #[trigger] kept.contains_key(s) == server_tracks(world, client, s),
        sets_cover(world, client, before, kept, s1),
        deletes_cover(world, client, before, kept, s3),
        forall|k: int| 0 <= k < s2.len() ==> server_command_ok(world, client, before, #[trigger] s2[k]) && s2[k] is DeleteEntity,
        forall|t: ServerEntityId|
            #[trigger] before.contains_key(t) && !server_tracks(world, client, t) ==> exists|k: int|
                0 <= k < s2.len() && #[trigger] s2[k] == NetEcsCommand::DeleteEntity(t),
    ensures
        ({
            let cmds = s1 + s2 + s3;
            &&& forall|k: int| 0 <= k < cmds.len() ==> server_command_ok(world, client, before, #[trigger] cmds[k])
            &&& forall|s: ServerEntityId, c: ComponentId|
                server_tracks(world, client, s) && #[trigger] server_plan(world, client, before, s, c) == EntryAction::Send
                    ==> exists|k: int| 0 <= k < cmds.len() && sends_component(#[trigger] cmds[k], s, c)
            &&& forall|s: ServerEntityId, c: ComponentId|
                server_tracks(world, client, s) && #[trigger] server_plan(world, client, before, s, c) == EntryAction::Delete
                    ==> exists|k: int| 0 <= k < cmds.len() && #[trigger] cmds[k] == NetEcsCommand::DeleteComponent(s, c)
            &&& forall|s: ServerEntityId|
                #[trigger] before.contains_key(s) && !server_tracks(world, client, s) ==> exists|k: int|
                    0 <= k < cmds.len() && #[trigger] cmds[k] == NetEcsCommand::DeleteEntity(s)
            &&& forall|a: int, b: int, s: ServerEntityId, c: ComponentId|
                0 <= a < b < cmds.len() && #[trigger] sends_component(cmds[a], s, c) ==> !#[trigger] sends_component(cmds[b], s, c)
        }),
{
    reveal(sets_cover);
    reveal(deletes_cover);
    let cmds = s1 + s2 + s3;
    let n1 = s1.len() as int;
    let n2 = s2.len() as int;
    assert forall|k: int| 0 <= k < cmds.len() implies server_command_ok(world, client, before, #[trigger] cmds[k]) by {
        if k < n1 {
            assert(cmds[k] == s1[k]);
        } else if k < n1 + n2 {
            assert(cmds[k] == s2[k - n1]);
        } else {
            assert(cmds[k] == s3[k - n1 - n2]);
        }
    }
    assert forall|t: ServerEntityId, c: ComponentId|
        server_tracks(world, client, t) && #[trigger] server_plan(world, client, before, t, c) == EntryAction::Send
            implies exists|k: int| 0 <= k < cmds.len() && sends_component(#[trigger] cmds[k], t, c) by {
        assert(kept.contains_key(t));
        let k = choose|k: int| 0 <= k < s1.len() && sends_component(#[trigger] s1[k], t, c);
        assert(cmds[k] == s1[k]);
    }
    assert forall|t: ServerEntityId, c: ComponentId|
        server_tracks(world, client, t) && #[trigger] server_plan(world, client, before, t, c) == EntryAction::Delete
            implies exists|k: int| 0 <= k < cmds.len() && #[trigger] cmds[k] == NetEcsCommand::DeleteComponent(t, c) by {
        assert(kept.contains_key(t));
        let k = choose|k: int| 0 <= k < s3.len() && #[trigger] s3[k] == NetEcsCommand::DeleteComponent(t, c);
        assert(cmds[n1 + n2 + k] == s3[k]);
    }
    assert forall|t: ServerEntityId|
        #[trigger] before.contains_key(t) && !server_tracks(world, client, t) implies exists|k: int|
            0 <= k < cmds.len() && #[trigger] cmds[k] == NetEcsCommand::DeleteEntity(t) by {
        let k = choose|k: int| 0 <= k < s2.len() && #[trigger] s2[k] == NetEcsCommand::DeleteEntity(t);
        assert(cmds[n1 + k] == s2[k]);
    }
    assert forall|a: int, b: int, t: ServerEntityId, c: ComponentId|
        0 <= a < b < cmds.len() && #[trigger] sends_component(cmds[a], t, c) implies !#[trigger] sends_component(cmds[b], t, c) by {
        if a < n1 {
            assert(cmds[a] == s1[a]);
        } else if a < n1 + n2 {
            assert(cmds[a] == s2[a - n1]);
        } else {
            assert(cmds[a] == s3[a - n1 - n2]);
        }
        if b < n1 {
            assert(cmds[b] == s1[b]);
        } else if b < n1 + n2 {
            assert(cmds[b] == s2[b - n1]);
        } else {
            assert(cmds[b] == s3[b - n1 - n2]);
        }
    }
}

/// Keeps one client's view of the world converged with this side's.
#[derive(Debug)]
pub struct EcsReplicator {
    client_id: ClientId,
    current_entities: Vec<TrackedEntity>,
}

impl EcsReplicator {
    /// The last values sent or received, per mirrored entity.
    pub closed spec fn snapshot(&self) -> Map<ServerEntityId, Seq<Component>> {
        snapshot_of(self.current_entities@)
    }

    pub closed spec fn wf(&self) -> bool {
        tracked_wf(self.current_entities@)
    }

    /// The client this replicator serves.
    pub closed spec fn client(&self) -> ClientId {
        self.client_id
    }

    pub fn client_id(&self) -> (r: ClientId)
        ensures
            r == self.client(),
    {
        self.client_id
    }

    pub fn new(client_id: ClientId) -> (r: EcsReplicator)
        ensures
            r.wf(),
            r.client() == client_id,
            r.snapshot() == Map::<ServerEntityId, Seq<Component>>::empty(),
    {
        let r = EcsReplicator { client_id, current_entities: Vec::new() };
        assert(r.snapshot() =~= Map::<ServerEntityId, Seq<Component>>::empty());
        r
    }

    /// On a client: whether entity `e` carries a policy owned by `client` for server entity `s`.
    pub open spec fn client_owns(world: World, client: ClientId, e: EntityId, s: ServerEntityId) -> bool {
        &&& world.replicate_of(e) is Some
        &&& world.replicate_of(e)->0.owner == Some(client)
        &&& world.replicate_of(e)->0.server_entity_id == s
    }

    /// For the owned entity `e` standing for `s`: `comps` is what the client's
    /// decisions make of the prior snapshot of `s`, and `cmds` sends each value
    /// those decisions send.
    pub open spec fn client_entry_for(
        world: World,
        client: ClientId,
        before: Map<ServerEntityId, Seq<Component>>,
        s: ServerEntityId,
        comps: Seq<Component>,
        cmds: Seq<NetEcsCommand>,
        e: EntityId,
    ) -> bool {
        &&& forall|c: ComponentId| #[trigger] applies_action(
            client_action(world.replicate_of(e)->0, c, entry_of(prior(before, s), c), world.component_at(e, c)),
            entry_of(prior(before, s), c),
            entry_of(comps, c),
            world.component_at(e, c),
        )
        &&& forall|c: ComponentId|
            #[trigger] client_action(world.replicate_of(e)->0, c, entry_of(prior(before, s), c), world.component_at(e, c))
                == EntryAction::Send ==> exists|k: int|
                0 <= k < cmds.len() && sends_component(#[trigger] cmds[k], s, c) && world.component_at(e, c) is Some
                    && sent_value(cmds[k])->0.same_value(&world.component_at(e, c)->0)
        &&& forall|k: int|
            0 <= k < cmds.len() && (#[trigger] cmds[k]).target() == s ==> Self::client_sends_decided(world, before, s, cmds[k], e)
    }

    /// `cmd` sends, for `s`, a copy of the live value of a component type whose
    /// client decision is Send.
    pub open spec fn client_sends_decided(
        world: World,
        before: Map<ServerEntityId, Seq<Component>>,
        s: ServerEntityId,
        cmd: NetEcsCommand,
        e: EntityId,
    ) -> bool {
        let c = sent_value(cmd)->0.component_id;
        &&& cmd is SetComponent
        &&& client_action(world.replicate_of(e)->0, c, entry_of(prior(before, s), c), world.component_at(e, c))
            == EntryAction::Send
        &&& world.component_at(e, c) is Some
        &&& sent_value(cmd)->0.same_value(&world.component_at(e, c)->0)
    }

    /// `client_entry_for` holds for some owned entity standing for `s`.
    pub open spec fn client_entry_ok(
        world: World,
        client: ClientId,
        before: Map<ServerEntityId, Seq<Component>>,
        s: ServerEntityId,
        comps: Seq<Component>,
        cmds: Seq<NetEcsCommand>,
    ) -> bool {
        exists|e: EntityId| #[trigger] Self::client_owns(world, client, e, s) && Self::client_entry_for(world, client, before, s, comps, cmds, e)
    }

    proof fn lemma_client_entry_grow(
        world: World,
        client: ClientId,
        before: Map<ServerEntityId, Seq<Component>>,
        s: ServerEntityId,
        comps: Seq<Component>,
        cmds: Seq<NetEcsCommand>,
        more: Seq<NetEcsCommand>,
    )
        requires
            Self::client_entry_ok(world, client, before, s, comps, cmds),
            forall|k: int| 0 <= k < more.len() ==> (#[trigger] more[k]).target() != s,
        ensures
            Self::client_entry_ok(world, client, before, s, comps, cmds + more),
    {
        let e = choose|e: EntityId| #[trigger] Self::client_owns(world, client, e, s) && Self::client_entry_for(world, client, before, s, comps, cmds, e);
        let all = cmds + more;
        assert forall|c: ComponentId|
            #[trigger] client_action(world.replicate_of(e)->0, c, entry_of(prior(before, s), c), world.component_at(e, c))
                == EntryAction::Send implies exists|k: int|
                0 <= k < all.len() && sends_component(#[trigger] all[k], s, c) && world.component_at(e, c) is Some
                    && sent_value(all[k])->0.same_value(&world.component_at(e, c)->0) by {
            let k = choose|k: int|
                0 <= k < cmds.len() && sends_component(#[trigger] cmds[k], s, c) && world.component_at(e, c) is Some
                    && sent_value(cmds[k])->0.same_value(&world.component_at(e, c)->0);
            assert(all[k] == cmds[k]);
        }
        assert forall|k: int|
            0 <= k < all.len() && (#[trigger] all[k]).target() == s implies Self::client_sends_decided(world, before, s, all[k], e) by {
            if k < cmds.len() {
                assert(all[k] == cmds[k]);
            } else {
                assert(all[k] == more[k - cmds.len()]);
            }
        }
        assert(Self::client_entry_for(world, client, before, s, comps, all, e));
    }

    /// One client tick: sends the owned entities' writable components that
    /// changed since they were last sent, and forgets what it no longer owns.
    pub fn client_update(&mut self, world: &World) -> (cmds: Vec<NetEcsCommand>)
        requires
            old(self).wf(),
            world.wf(),
        ensures
            final(self).wf(),
            final(self).client() == old(self).client(),
            forall|s: ServerEntityId| #[trigger] final(self).snapshot().contains_key(s) == exists|e: EntityId|
                Self::client_owns(*world, old(self).client(), e, s),
            forall|s: ServerEntityId| #[trigger] final(self).snapshot().contains_key(s) ==> Self::client_entry_ok(
                *world,
                old(self).client(),
                old(self).snapshot(),
                s,
                final(self).snapshot()[s],
                cmds@,
            ),
            forall|k: int| 0 <= k < cmds@.len() ==> (#[trigger] cmds@[k]) is SetComponent
                && final(self).snapshot().contains_key(cmds@[k].target()),
            forall|a: int, b: int, s: ServerEntityId, c: ComponentId|
                0 <= a < b < cmds@.len() && #[trigger] sends_component(cmds@[a], s, c) ==> !#[trigger] sends_component(cmds@[b], s, c),
    {
        let ghost before = self.snapshot();
        let client = self.client_id;
        let rid = Replicate::component_type_id();
        let with = [rid];
        let without: [ComponentId; 0] = [];
        let rows = world.query(&with, &without);
        let mut remaining: Vec<TrackedEntity> = Vec::new();
        std::mem::swap(&mut remaining, &mut self.current_entities);
        let mut kept: Vec<TrackedEntity> = Vec::new();
        let mut sets: Vec<NetEcsCommand> = Vec::new();
        let mut i: usize = 0;
        assert(snapshot_of(kept@) =~= Map::<ServerEntityId, Seq<Component>>::empty());
        while i < rows.len()
            invariant
                world.wf(),
                rid == replicate_id(),
                with@ == seq![rid],
                without@ == Seq::<ComponentId>::empty(),
                i <= rows@.len(),
                forall|k: int| 0 <= k < rows@.len() ==> world.matches_query(#[trigger] rows@[k].0, with@, without@)
                    && world.query_components(rows@[k].0, with@, rows@[k].1@),
                forall|e: EntityId| world.matches_query(e, with@, without@) ==> exists|k: int|
                    0 <= k < rows@.len() && #[trigger] rows@[k].0 == e,
                tracked_wf(remaining@),
                tracked_wf(kept@),
                forall|s: ServerEntityId| #[trigger] snapshot_of(remaining@).contains_key(s) ==> before.contains_key(s)
                    && snapshot_of(remaining@)[s] == before[s],
                forall|s: ServerEntityId| #[trigger] snapshot_of(kept@).contains_key(s) ==> !snapshot_of(remaining@).contains_key(s),
                forall|s: ServerEntityId| #[trigger] before.contains_key(s) && !snapshot_of(kept@).contains_key(s) ==> snapshot_of(remaining@).contains_key(s),
                forall|s: ServerEntityId| #[trigger] snapshot_of(kept@).contains_key(s) ==> (exists|e: EntityId|
                    Self::client_owns(*world, client, e, s)) && Self::client_entry_ok(*world, client, before, s, snapshot_of(kept@)[s], sets@),
                forall|j: int, s: ServerEntityId| 0 <= j < i && Self::client_owns(*world, client, #[trigger] rows@[j].0, s)
                    ==> #[trigger] snapshot_of(kept@).contains_key(s),
                forall|k: int| 0 <= k < sets@.len() ==> (#[trigger] sets@[k]) is SetComponent
                    && snapshot_of(kept@).contains_key(sets@[k].target()),
                forall|a: int, b: int, s: ServerEntityId, c: ComponentId|
                    0 <= a < b < sets@.len() && #[trigger] sends_component(sets@[a], s, c) ==> !#[trigger] sends_component(sets@[b], s, c),
            decreases rows.len() - i,
        {
            let entity_id = rows[i].0;
            let ghost prev_kept = snapshot_of(kept@);
            let ghost prev_sets = sets@;
            proof {
                assert(world.matches_query(entity_id, with@, without@));
                assert(world@.contains_key((entity_id, with@[0])));
                assert(*rows@[i as int].1@[0] == world@[(entity_id, rid)]);
            }
            let rep_component: &Component = rows[i].1[0];
            match rep_component.as_replicate() {
                Some(rep) => {
                    proof {
                        assert(world.replicate_of(entity_id) == Some(*rep));
                    }
                    let s = rep.server_entity_id;
                    if option_same_client(rep.owner, client) {
                        if !contains_tracked(&kept, s) {
                            let taken = take_tracked(&mut remaining, s);
                            let old_components = match taken {
                                Some(v) => v,
                                None => Vec::new(),
                            };
                            let ghost oc = old_components@;
                            proof {
                                assert(oc =~= prior(before, s));
                            }
                            let (new_components, mut sends, _none) = diff_entity(false, rep, client, rid, world, entity_id, s, old_components);
                            let ghost sends_s = sends@;
                            let ghost new_s = new_components@;
                            proof {
                                lemma_snapshot_push(kept@, TrackedEntity { server_entity_id: s, components: new_components });
                            }
                            kept.push(TrackedEntity { server_entity_id: s, components: new_components });
                            sets.append(&mut sends);
                            proof {
                                assert(Self::client_owns(*world, client, entity_id, s));
                                let plan_c = |c: ComponentId| planned(false, *rep, client, *world, entity_id, oc, c) == EntryAction::Send;
                                assert(sets@ == prev_sets + sends_s);
                                assert forall|c: ComponentId| #[trigger] applies_action(
                                    client_action(world.replicate_of(entity_id)->0, c, entry_of(prior(before, s), c), world.component_at(entity_id, c)),
                                    entry_of(prior(before, s), c),
                                    entry_of(new_s, c),
                                    world.component_at(entity_id, c),
                                ) by {
                                    assert(applies_action(
                                        planned(false, *rep, client, *world, entity_id, oc, c),
                                        entry_of(oc, c),
                                        entry_of(new_s, c),
                                        world.component_at(entity_id, c),
                                    ));
                                }
                                assert forall|c: ComponentId|
                                    #[trigger] client_action(world.replicate_of(entity_id)->0, c, entry_of(prior(before, s), c), world.component_at(entity_id, c))
                                        == EntryAction::Send implies exists|k: int|
                                        0 <= k < sets@.len() && sends_component(#[trigger] sets@[k], s, c) && world.component_at(entity_id, c) is Some
                                            && sent_value(sets@[k])->0.same_value(&world.component_at(entity_id, c)->0) by {
                                    assert(plan_c(c));
                                    let k = choose|k: int| 0 <= k < sends_s.len() && sent_value(#[trigger] sends_s[k]) is Some && sent_value(sends_s[k])->0.component_id == c;
                                    assert(sets@[prev_sets.len() + k] == sends_s[k]);
                                    assert(sends_s[k].target() == s);
                                }
                                assert forall|k: int|
                                    0 <= k < sets@.len() && (#[trigger] sets@[k]).target() == s implies Self::client_sends_decided(*world, before, s, sets@[k], entity_id) by {
                                    if k < prev_sets.len() {
                                        assert(sets@[k] == prev_sets[k]);
                                        assert(prev_kept.contains_key(prev_sets[k].target()));
                                    } else {
                                        assert(sets@[k] == sends_s[k - prev_sets.len()]);
                                        let v = sent_value(sends_s[k - prev_sets.len()])->0;
                                        assert(plan_c(v.component_id));
                                    }
                                }
                                assert forall|a: int, b: int, t: ServerEntityId, c: ComponentId|
                                    0 <= a < b < sets@.len() && #[trigger] sends_component(sets@[a], t, c) implies !#[trigger] sends_component(sets@[b], t, c) by {
                                    if b >= prev_sets.len() {
                                        assert(sets@[b] == sends_s[b - prev_sets.len()]);
                                        if a >= prev_sets.len() {
                                            assert(sets@[a] == sends_s[a - prev_sets.len()]);
                                        } else {
                                            assert(sets@[a] == prev_sets[a]);
                                            assert(prev_kept.contains_key(prev_sets[a].target()));
                                        }
                                    } else {
                                        assert(sets@[a] == prev_sets[a]);
                                        assert(sets@[b] == prev_sets[b]);
                                    }
                                }
                                assert(Self::client_entry_for(*world, client, before, s, new_s, sets@, entity_id));
                                assert(Self::client_entry_ok(*world, client, before, s, new_s, sets@));
                                assert forall|t: ServerEntityId| #[trigger] snapshot_of(kept@).contains_key(t) implies (exists|e: EntityId|
                                    Self::client_owns(*world, client, e, t)) && Self::client_entry_ok(*world, client, before, t, snapshot_of(kept@)[t], sets@) by {
                                    if t != s {
                                        assert(prev_kept.contains_key(t));
                                        Self::lemma_client_entry_grow(*world, client, before, t, prev_kept[t], prev_sets, sends_s);
                                        assert(sets@ == prev_sets + sends_s);
                                    }
                                }
                                assert forall|k: int| 0 <= k < sets@.len() implies (#[trigger] sets@[k]) is SetComponent
                                    && snapshot_of(kept@).contains_key(sets@[k].target()) by {
                                    if k < prev_sets.len() {
                                        assert(sets@[k] == prev_sets[k]);
                                    } else {
                                        assert(sets@[k] == sends_s[k - prev_sets.len()]);
                                    }
                                }
                            }
                        }
                    }
                },
                None => {},
            }
            proof {
                assert forall|j: int, t: ServerEntityId| 0 <= j < i + 1 && Self::client_owns(*world, client, #[trigger] rows@[j].0, t)
                    implies #[trigger] snapshot_of(kept@).contains_key(t) by {
                    if j < i {
                        assert(prev_kept.contains_key(t));
                    }
                }
            }
            i = i + 1;
        }
        proof {
            assert forall|s: ServerEntityId| #[trigger] snapshot_of(kept@).contains_key(s) == exists|e: EntityId|
                Self::client_owns(*world, client, e, s) by {
                if exists|e: EntityId| Self::client_owns(*world, client, e, s) {
                    let e = choose|e: EntityId| Self::client_owns(*world, client, e, s);
                    assert(world.matches_query(e, with@, without@));
                    let k = choose|k: int| 0 <= k < rows@.len() && #[trigger] rows@[k].0 == e;
                    assert(Self::client_owns(*world, client, rows@[k].0, s));
                }
            }
        }
        self.current_entities = kept;
        sets
    }

    /// The snapshot value of type `c` for server entity `s`, if there is one.
    pub fn snapshot_component(&self, s: ServerEntityId, c: ComponentId) -> (r: Option<&Component>)
        requires
            self.wf(),
        ensures
            r is Some <==> (self.snapshot().contains_key(s) && entry_of(self.snapshot()[s], c) is Some),
            r is Some ==> *r->0 == entry_of(self.snapshot()[s], c)->0,
    {
        let mut i: usize = 0;
        while i < self.current_entities.len()
            invariant
                tracked_wf(self.current_entities@),
                i <= self.current_entities@.len(),
                forall|j: int| 0 <= j < i ==> (#[trigger] self.current_entities@[j]).server_entity_id != s,
            decreases self.current_entities.len() - i,
        {
            if self.current_entities[i].server_entity_id.0.0 == s.0.0 {
                proof { lemma_snapshot_at(self.current_entities@, i as int); }
                let entries = &self.current_entities[i].components;
                return match find_entry(entries, c) {
                    Some(k) => Some(&entries[k]),
                    None => None,
                };
            }
            i = i + 1;
        }
        None
    }

    /// Whether server entity `s` is in the snapshot.
    pub fn is_tracking(&self, s: ServerEntityId) -> (r: bool)
        requires
            self.wf(),
        ensures
            r == self.snapshot().contains_key(s),
    {
        contains_tracked(&self.current_entities, s)
    }

    /// Sends one serializable component of a server entity now, outside the
    /// normal diff cadence, and records it in the snapshot. Returns the command
    /// to send, or `None` where the entity has no such serializable component.
    pub fn replicate(&mut self, world: &World, entity_id: EntityId, component_id: ComponentId) -> (r: Option<NetEcsCommand>)
        requires
            old(self).wf(),
            world.wf(),
        ensures
            final(self).wf(),
            final(self).client() == old(self).client(),
            r is Some <==> (world.component_at(entity_id, component_id) is Some
                && world.component_at(entity_id, component_id)->0.serializable()),
            r is None ==> final(self).snapshot() == old(self).snapshot(),
            r is Some ==> {
                let s = ServerEntityId(entity_id);
                let live = world.component_at(entity_id, component_id)->0;
                &&& r->0.target() == s
                &&& sent_value(r->0) is Some
                &&& sent_value(r->0)->0.same_value(&live)
                &&& final(self).snapshot().dom() == old(self).snapshot().dom().insert(s)
                &&& forall|t: ServerEntityId| t != s && #[trigger] old(self).snapshot().contains_key(t) ==> final(self).snapshot()[t]
                    == old(self).snapshot()[t]
                &&& distinct_ids(final(self).snapshot()[s])
                &&& forall|c: ComponentId| c != component_id ==> #[trigger] entry_of(final(self).snapshot()[s], c)
                    == entry_of(prior(old(self).snapshot(), s), c)
                &&& entry_of(final(self).snapshot()[s], component_id) is Some
                &&& entry_of(final(self).snapshot()[s], component_id)->0.same_value(&live)
            },
    {
        let component = match world.get_component(entity_id, component_id) {
            Some(c) => c,
            None => return None,
        };
        if !component.is_serializable() {
            return None;
        }
        proof { world.lemma_stored_ids(); }
        let s = ServerEntityId(entity_id);
        let ghost before = self.snapshot();
        let taken = take_tracked(&mut self.current_entities, s);
        let mut entries = match taken {
            Some(v) => v,
            None => Vec::new(),
        };
        let ghost prior_s = entries@;
        proof {
            assert(prior_s =~= prior(before, s));
        }
        upsert_entry(&mut entries, component.clone_value());
        let ghost new_s = entries@;
        proof {
            lemma_snapshot_push(self.current_entities@, TrackedEntity { server_entity_id: s, components: entries });
        }
        self.current_entities.push(TrackedEntity { server_entity_id: s, components: entries });
        proof {
            assert(self.snapshot() == before.remove(s).insert(s, new_s));
            assert(self.snapshot().dom() =~= before.dom().insert(s));
        }
        Some(NetEcsCommand::SetComponent(s, component.clone_value()))
    }

    /// One server tick for this client: brings the snapshot in line with the
    /// world and returns the commands that take the client there, updates first
    /// and deletions last.
    pub fn server_update(&mut self, world: &World) -> (cmds: Vec<NetEcsCommand>)
        requires
            old(self).wf(),
            world.wf(),
        ensures
            final(self).wf(),
            final(self).client() == old(self).client(),
            forall|s: ServerEntityId| #[trigger] final(self).snapshot().contains_key(s) == server_tracks(*world, old(self).client(), s),
            forall|s: ServerEntityId, c: ComponentId|
                final(self).snapshot().contains_key(s) ==> #[trigger] applies_action(
                    server_plan(*world, old(self).client(), old(self).snapshot(), s, c),
                    entry_of(prior(old(self).snapshot(), s), c),
                    entry_of(final(self).snapshot()[s], c),
                    world.component_at(s.0, c),
                ),
            forall|k: int| 0 <= k < cmds@.len() ==> server_command_ok(*world, old(self).client(), old(self).snapshot(), #[trigger] cmds@[k]),
            forall|s: ServerEntityId, c: ComponentId|
                server_tracks(*world, old(self).client(), s) && #[trigger] server_plan(*world, old(self).client(), old(self).snapshot(), s, c)
                    == EntryAction::Send ==> exists|k: int| 0 <= k < cmds@.len() && sends_component(#[trigger] cmds@[k], s, c),
            forall|s: ServerEntityId, c: ComponentId|
                server_tracks(*world, old(self).client(), s) && #[trigger] server_plan(*world, old(self).client(), old(self).snapshot(), s, c)
                    == EntryAction::Delete ==> exists|k: int| 0 <= k < cmds@.len() && #[trigger] cmds@[k] == NetEcsCommand::DeleteComponent(s, c),
            forall|s: ServerEntityId|
                #[trigger] old(self).snapshot().contains_key(s) && !server_tracks(*world, old(self).client(), s) ==> exists|k: int|
                    0 <= k < cmds@.len() && #[trigger] cmds@[k] == NetEcsCommand::DeleteEntity(s),
            forall|a: int, b: int, s: ServerEntityId, c: ComponentId|
                0 <= a < b < cmds@.len() && #[trigger] sends_component(cmds@[a], s, c) ==> !#[trigger] sends_component(cmds@[b], s, c),
            forall|a: int, b: int| 0 <= a < b < cmds@.len() ==> command_rank(#[trigger] cmds@[a]) <= command_rank(#[trigger] cmds@[b]),
            forall|a: int, b: int| 0 <= a < b < cmds@.len() && !(cmds@[a] is SetComponent) ==> #[trigger] cmds@[a] != #[trigger] cmds@[b],
    {
        let ghost before = self.snapshot();
        let client = self.client_id;
        let rid = Replicate::component_type_id();
        let with = [rid];
        let without: [ComponentId; 0] = [];
        let rows = world.query(&with, &without);
        let mut remaining: Vec<TrackedEntity> = Vec::new();
        std::mem::swap(&mut remaining, &mut self.current_entities);
        let mut kept: Vec<TrackedEntity> = Vec::new();
        let mut sets: Vec<NetEcsCommand> = Vec::new();
        let mut entity_deletes: Vec<NetEcsCommand> = Vec::new();
        let mut component_deletes: Vec<NetEcsCommand> = Vec::new();
        let mut i: usize = 0;
        proof {
            assert(snapshot_of(kept@) =~= Map::<ServerEntityId, Seq<Component>>::empty());
            reveal(sets_cover);
            reveal(deletes_cover);
            reveal(kept_ok);
        }
        while i < rows.len()
            invariant
                world.wf(),
                rid == replicate_id(),
                with@ == seq![rid],
                without@ == Seq::<ComponentId>::empty(),
                i <= rows@.len(),
                forall|a: int, b: int| 0 <= a < b < rows@.len() ==> rows@[a].0.0 < rows@[b].0.0,
                forall|k: int| 0 <= k < rows@.len() ==> world.matches_query(#[trigger] rows@[k].0, with@, without@)
                    && world.query_components(rows@[k].0, with@, rows@[k].1@),
                tracked_wf(remaining@),
                tracked_wf(kept@),
                forall|s: ServerEntityId| #[trigger] snapshot_of(remaining@).contains_key(s) == (before.contains_key(s)
                    && !(exists|j: int| 0 <= j < i && (#[trigger] rows@[j]).0 == s.0)),
                forall|s: ServerEntityId| #[trigger] snapshot_of(remaining@).contains_key(s) ==> snapshot_of(remaining@)[s] == before[s],
                forall|s: ServerEntityId| #[trigger] snapshot_of(kept@).contains_key(s) == (server_tracks(*world, client, s)
                    && exists|j: int| 0 <= j < i && (#[trigger] rows@[j]).0 == s.0),
                kept_ok(*world, client, before, snapshot_of(kept@)),
                sets_cover(*world, client, before, snapshot_of(kept@), sets@),
                deletes_cover(*world, client, before, snapshot_of(kept@), component_deletes@),
                forall|k: int| 0 <= k < entity_deletes@.len() ==> server_command_ok(*world, client, before, #[trigger] entity_deletes@[k])
                    && entity_deletes@[k] is DeleteEntity,
                forall|s: ServerEntityId|
                    #[trigger] before.contains_key(s) && !server_tracks(*world, client, s) && (exists|j: int| 0 <= j < i && (#[trigger] rows@[j]).0 == s.0)
                        ==> exists|k: int| 0 <= k < entity_deletes@.len() && #[trigger] entity_deletes@[k] == NetEcsCommand::DeleteEntity(s),
                forall|k: int| 0 <= k < entity_deletes@.len() ==> exists|j: int| 0 <= j < i && (#[trigger] rows@[j]).0 == (#[trigger] entity_deletes@[k]).target().0,
                forall|a: int, b: int| 0 <= a < b < entity_deletes@.len() ==> #[trigger] entity_deletes@[a] != #[trigger] entity_deletes@[b],
            decreases rows.len() - i,
        {
            let entity_id = rows[i].0;
            let s = ServerEntityId(entity_id);
            let ghost prev_remaining = snapshot_of(remaining@);
            let ghost prev_kept = snapshot_of(kept@);
            let ghost prev_edel = entity_deletes@;
            proof {
                assert(world.matches_query(entity_id, with@, without@));
                assert(world@.contains_key((entity_id, with@[0])));
                assert(*rows@[i as int].1@[0] == world@[(entity_id, rid)]);
                assert forall|j: int| 0 <= j < i implies (#[trigger] rows@[j]).0 != entity_id by {
                    assert(rows@[j].0.0 < rows@[i as int].0.0);
                }
                assert(!prev_kept.contains_key(s));
            }
            let taken = take_tracked(&mut remaining, s);
            let rep_component: &Component = rows[i].1[0];
            let decided: Option<&Replicate> = match rep_component.as_replicate() {
                Some(rep) => {
                    if option_same_client(rep.owner, client) || rep.replicate_to.contains(&client) {
                        Some(rep)
                    } else {
                        None
                    }
                },
                None => None,
            };
            match decided {
                Some(rep) => {
                    proof {
                        assert(world.replicate_of(entity_id) == Some(*rep));
                        assert(server_tracks(*world, client, s));
                    }
                    let old_components = match taken {
                        Some(v) => v,
                        None => Vec::new(),
                    };
                    proof {
                        assert(old_components@ =~= prior(before, s));
                    }
                    server_step(rep, client, rid, world, entity_id, Ghost(before), old_components, &mut kept, &mut sets, &mut component_deletes);
                },
                None => {
                    proof {
                        assert(!server_tracks(*world, client, s));
                    }
                    if taken.is_some() {
                        entity_deletes.push(NetEcsCommand::DeleteEntity(s));
                    }
                    proof {
                        assert(snapshot_of(kept@) == prev_kept);
                        assert forall|k: int| 0 <= k < entity_deletes@.len() implies server_command_ok(*world, client, before, #[trigger] entity_deletes@[k])
                            && entity_deletes@[k] is DeleteEntity by {
                            reveal(server_command_ok);
                            if k < prev_edel.len() {
                                assert(entity_deletes@[k] == prev_edel[k]);
                                assert(server_command_ok(*world, client, before, prev_edel[k]));
                            } else {
                                assert(prev_remaining.contains_key(s));
                            }
                        }
                        assert forall|a: int, b: int| 0 <= a < b < entity_deletes@.len() implies #[trigger] entity_deletes@[a] != #[trigger] entity_deletes@[b] by {
                            assert(entity_deletes@[a] == prev_edel[a]);
                            if b < prev_edel.len() {
                                assert(entity_deletes@[b] == prev_edel[b]);
                            } else {
                                let j = choose|j: int| 0 <= j < i && (#[trigger] rows@[j]).0 == prev_edel[a].target().0;
                                assert(rows@[j].0.0 < rows@[i as int].0.0);
                            }
                        }
                    }
                },
            }
            proof {
                assert forall|k: int| 0 <= k < entity_deletes@.len() implies exists|j: int| 0 <= j < i + 1 && (#[trigger] rows@[j]).0 == (#[trigger] entity_deletes@[k]).target().0 by {
                    if k < prev_edel.len() {
                        assert(entity_deletes@[k] == prev_edel[k]);
                        let j = choose|j: int| 0 <= j < i && (#[trigger] rows@[j]).0 == prev_edel[k].target().0;
                        assert(0 <= j < i + 1);
                    } else {
                        assert(entity_deletes@[k] == NetEcsCommand::DeleteEntity(s));
                        assert(rows@[i as int].0 == s.0);
                    }
                }
                assert forall|t: ServerEntityId|
                    #[trigger] before.contains_key(t) && !server_tracks(*world, client, t) && (exists|j: int| 0 <= j < i + 1 && (#[trigger] rows@[j]).0 == t.0)
                        implies exists|k: int| 0 <= k < entity_deletes@.len() && #[trigger] entity_deletes@[k] == NetEcsCommand::DeleteEntity(t) by {
                    if t == s {
                        assert(prev_remaining.contains_key(s));
                        assert(entity_deletes@[prev_edel.len() as int] == NetEcsCommand::DeleteEntity(t));
                    } else {
                        let j = choose|j: int| 0 <= j < i + 1 && (#[trigger] rows@[j]).0 == t.0;
                        assert(j != i);
                        assert(exists|j: int| 0 <= j < i && (#[trigger] rows@[j]).0 == t.0);
                        let k = choose|k: int| 0 <= k < prev_edel.len() && #[trigger] prev_edel[k] == NetEcsCommand::DeleteEntity(t);
                        assert(entity_deletes@[k] == prev_edel[k]);
                    }
                }
                assert forall|t: ServerEntityId| #[trigger] snapshot_of(remaining@).contains_key(t) == (before.contains_key(t)
                    && !(exists|j: int| 0 <= j < i + 1 && (#[trigger] rows@[j]).0 == t.0)) by {
                    if exists|j: int| 0 <= j < i + 1 && (#[trigger] rows@[j]).0 == t.0 {
                        let j = choose|j: int| 0 <= j < i + 1 && (#[trigger] rows@[j]).0 == t.0;
                        if j < i {
                            assert(exists|j: int| 0 <= j < i && (#[trigger] rows@[j]).0 == t.0);
                        } else {
                            assert(t == s);
                        }
                    } else {
                        assert(!(exists|j: int| 0 <= j < i && (#[trigger] rows@[j]).0 == t.0));
                        assert(t.0 != rows@[i as int].0);
                    }
                }
                assert forall|t: ServerEntityId| #[trigger] snapshot_of(kept@).contains_key(t) == (server_tracks(*world, client, t)
                    && exists|j: int| 0 <= j < i + 1 && (#[trigger] rows@[j]).0 == t.0) by {
                    if exists|j: int| 0 <= j < i + 1 && (#[trigger] rows@[j]).0 == t.0 {
                        let j = choose|j: int| 0 <= j < i + 1 && (#[trigger] rows@[j]).0 == t.0;
                        if j < i {
                            assert(exists|j: int| 0 <= j < i && (#[trigger] rows@[j]).0 == t.0);
                        } else {
                            assert(t == s);
                        }
                    } else {
                        assert(!(exists|j: int| 0 <= j < i && (#[trigger] rows@[j]).0 == t.0));
                        assert(t.0 != rows@[i as int].0);
                    }
                }
            }
            i = i + 1;
        }
        let ghost mid_edel = entity_deletes@;
        proof {
            assert forall|k: int| 0 <= k < mid_edel.len() implies !snapshot_of(remaining@).contains_key((#[trigger] mid_edel[k]).target()) by {
                assert(mid_edel[k] == entity_deletes@[k]);
                let j = choose|j: int| 0 <= j < i && (#[trigger] rows@[j]).0 == (#[trigger] entity_deletes@[k]).target().0;
                assert(exists|j: int| 0 <= j < i && (#[trigger] rows@[j]).0 == mid_edel[k].target().0);
            }
            assert forall|s: ServerEntityId| #[trigger] snapshot_of(remaining@).contains_key(s) implies before.contains_key(s) && !server_tracks(*world, client, s) by {
                if server_tracks(*world, client, s) {
                    assert(world.matches_query(s.0, with@, without@));
                    let k = choose|k: int| 0 <= k < rows@.len() && #[trigger] rows@[k].0 == s.0;
                    assert(exists|j: int| 0 <= j < rows@.len() && (#[trigger] rows@[j]).0 == s.0);
                }
            }
            assert forall|s: ServerEntityId| #[trigger] snapshot_of(kept@).contains_key(s) == server_tracks(*world, client, s) by {
                if server_tracks(*world, client, s) {
                    assert(world.matches_query(s.0, with@, without@));
                    let k = choose|k: int| 0 <= k < rows@.len() && #[trigger] rows@[k].0 == s.0;
                }
            }
            assert forall|t: ServerEntityId|
                #[trigger] before.contains_key(t) && !server_tracks(*world, client, t) && !snapshot_of(remaining@).contains_key(t)
                    implies exists|k: int| 0 <= k < mid_edel.len() && #[trigger] mid_edel[k] == NetEcsCommand::DeleteEntity(t) by {
                assert(exists|j: int| 0 <= j < rows@.len() && (#[trigger] rows@[j]).0 == t.0);
            }
        }
        let mut j: usize = 0;
        while j < remaining.len()
            invariant
                tracked_wf(remaining@),
                j <= remaining@.len(),
                forall|s: ServerEntityId| #[trigger] snapshot_of(remaining@).contains_key(s) ==> before.contains_key(s) && !server_tracks(*world, client, s),
                entity_deletes@.len() == mid_edel.len() + j,
                forall|k: int| 0 <= k < mid_edel.len() ==> #[trigger] entity_deletes@[k] == mid_edel[k],
                forall|k: int| 0 <= k < j ==> #[trigger] entity_deletes@[mid_edel.len() + k] == NetEcsCommand::DeleteEntity(remaining@[k].server_entity_id),
                forall|k: int| 0 <= k < mid_edel.len() ==> !snapshot_of(remaining@).contains_key((#[trigger] mid_edel[k]).target()),
                forall|a: int, b: int| 0 <= a < b < entity_deletes@.len() ==> #[trigger] entity_deletes@[a] != #[trigger] entity_deletes@[b],
            decreases remaining.len() - j,
        {
            proof { lemma_snapshot_at(remaining@, j as int); }
            let ghost prev = entity_deletes@;
            let t = remaining[j].server_entity_id;
            entity_deletes.push(NetEcsCommand::DeleteEntity(t));
            proof {
                assert forall|a: int, b: int| 0 <= a < b < entity_deletes@.len() implies #[trigger] entity_deletes@[a] != #[trigger] entity_deletes@[b] by {
                    assert(entity_deletes@[a] == prev[a]);
                    if b < prev.len() {
                        assert(entity_deletes@[b] == prev[b]);
                    } else if a < mid_edel.len() {
                        assert(prev[a] == mid_edel[a]);
                        assert(snapshot_of(remaining@).contains_key(t));
                    } else {
                        let ka = a - mid_edel.len();
                        assert(prev[mid_edel.len() + ka] == NetEcsCommand::DeleteEntity(remaining@[ka].server_entity_id));
                        assert(remaining@[ka].server_entity_id != remaining@[j as int].server_entity_id);
                    }
                }
                assert forall|k: int| 0 <= k < j + 1 implies #[trigger] entity_deletes@[mid_edel.len() + k] == NetEcsCommand::DeleteEntity(remaining@[k].server_entity_id) by {
                    if k < j {
                        assert(entity_deletes@[mid_edel.len() + k] == prev[mid_edel.len() + k]);
                    }
                }
            }
            j = j + 1;
        }
        proof {
            assert forall|k: int| 0 <= k < entity_deletes@.len() implies server_command_ok(*world, client, before, #[trigger] entity_deletes@[k])
                && entity_deletes@[k] is DeleteEntity by {
                reveal(server_command_ok);
                if k >= mid_edel.len() {
                    let q = k - mid_edel.len();
                    lemma_snapshot_at(remaining@, q);
                    assert(entity_deletes@[mid_edel.len() + q] == NetEcsCommand::DeleteEntity(remaining@[q].server_entity_id));
                    assert(mid_edel.len() + q == k);
                } else {
                    assert(entity_deletes@[k] == mid_edel[k]);
                    assert(server_command_ok(*world, client, before, mid_edel[k]));
                }
            }
            assert forall|t: ServerEntityId|
                #[trigger] before.contains_key(t) && !server_tracks(*world, client, t) implies exists|k: int|
                    0 <= k < entity_deletes@.len() && #[trigger] entity_deletes@[k] == NetEcsCommand::DeleteEntity(t) by {
                if snapshot_of(remaining@).contains_key(t) {
                    let q = choose|q: int| 0 <= q < remaining@.len() && (#[trigger] remaining@[q]).server_entity_id == t;
                    assert(entity_deletes@[mid_edel.len() + q] == NetEcsCommand::DeleteEntity(t));
                } else {
                    let k = choose|k: int| 0 <= k < mid_edel.len() && #[trigger] mid_edel[k] == NetEcsCommand::DeleteEntity(t);
                    assert(entity_deletes@[k] == mid_edel[k]);
                }
            }
        }
        let ghost s1 = sets@;
        let ghost s2 = entity_deletes@;
        let ghost s3 = component_deletes@;
        let mut cmds = sets;
        cmds.append(&mut entity_deletes);
        cmds.append(&mut component_deletes);
        self.current_entities = kept;
        proof {
            assert(cmds@ == s1 + s2 + s3);
            lemma_server_commands(*world, client, before, snapshot_of(kept@), s1, s2, s3);
            reveal(sets_cover);
            reveal(deletes_cover);
            reveal(server_command_ok);
            lemma_command_order(s1, s2, s3);
            reveal(kept_ok);
        }
        cmds
    }
}

} // verus!
