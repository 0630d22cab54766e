use hydrogen_ecs::change_tracker::{ComponentTrackerEvent, EntityComponentTracker, GlobalComponentTracker};
use hydrogen_ecs::component::{Component, ComponentData};
use hydrogen_ecs::ids::{ClientId, ComponentId, EntityId, ServerEntityId};
use hydrogen_ecs::replication::{EcsReplicator, NetEcsCommand, Replicate};
use hydrogen_ecs::selection::Selection;
use hydrogen_ecs::world::World;

fn pos_id() -> ComponentId {
    ComponentId::from_type_name("Position")
}

fn pos(x: u8, y: u8) -> Component {
    Component { component_id: pos_id(), data: ComponentData::Serializable(vec![x, y]) }
}

fn sets_of(cmds: &[NetEcsCommand], id: ComponentId) -> Vec<(ServerEntityId, &Component)> {
    cmds.iter()
        .filter_map(|c| match c {
            NetEcsCommand::SetComponent(s, v) if v.component_id == id => Some((*s, v)),
            _ => None,
        })
        .collect()
}

fn public_policy(e: EntityId) -> Replicate {
    Replicate {
        server_entity_id: ServerEntityId(e),
        owner: None,
        replicate_to: Selection::all(),
        client_writable: Selection::none(),
        replicated_components: Selection::all(),
        auto_replicate_changes: Selection::Whitelist(vec![pos_id()]),
    }
}

#[test]
fn replication_converges_and_sends_changes_once() {
    let client = ClientId(1);
    let mut server = World::new();
    let e = server.new_entity_id();
    server.set_component(e, public_policy(e).into_component());
    server.set_component(e, pos(1, 2));
    let mut replicator = EcsReplicator::new(client);

    let first = replicator.server_update(&server);
    let s = ServerEntityId(e);
    assert!(replicator.is_tracking(s));
    assert!(replicator.snapshot_component(s, pos_id()).unwrap().value_eq(&pos(1, 2)));
    assert_eq!(sets_of(&first, pos_id()).len(), 1);
    assert_eq!(sets_of(&first, Replicate::component_type_id()).len(), 1);

    let mut client_world = World::new();
    for cmd in first {
        client_world.execute_net_command(cmd);
    }
    let local = client_world.entity_id_from_server(s);
    assert!(client_world.get_component(local, pos_id()).unwrap().value_eq(&pos(1, 2)));

    server.set_component(e, pos(3, 2));
    let second = replicator.server_update(&server);
    assert_eq!(second.len(), 1);
    let sent = sets_of(&second, pos_id());
    assert_eq!(sent.len(), 1);
    assert_eq!(sent[0].0, s);
    assert!(sent[0].1.value_eq(&pos(3, 2)));

    let third = replicator.server_update(&server);
    assert!(third.is_empty());
}

#[test]
fn replication_stops_when_policy_excludes_client() {
    let client = ClientId(1);
    let mut server = World::new();
    let e = server.new_entity_id();
    let mut policy = public_policy(e);
    server.set_component(e, policy.duplicate().into_component());
    server.set_component(e, pos(1, 2));
    let mut replicator = EcsReplicator::new(client);
    replicator.server_update(&server);
    policy.replicate_to = Selection::Blacklist(vec![client]);
    server.set_component(e, policy.into_component());
    let cmds = replicator.server_update(&server);
    assert!(!replicator.is_tracking(ServerEntityId(e)));
    assert!(cmds.iter().any(|c| matches!(c, NetEcsCommand::DeleteEntity(s) if *s == ServerEntityId(e))));
}

#[test]
fn replication_deletes_removed_component() {
    let client = ClientId(1);
    let mut server = World::new();
    let e = server.new_entity_id();
    server.set_component(e, public_policy(e).into_component());
    server.set_component(e, pos(1, 2));
    let mut replicator = EcsReplicator::new(client);
    replicator.server_update(&server);
    server.delete_component(e, pos_id());
    let cmds = replicator.server_update(&server);
    assert!(cmds.iter().any(|c| matches!(c, NetEcsCommand::DeleteComponent(s, id) if *s == ServerEntityId(e) && *id == pos_id())));
    assert!(replicator.snapshot_component(ServerEntityId(e), pos_id()).is_none());
}

#[test]
fn owner_writes_are_not_echoed_back() {
    let client = ClientId(1);
    let mut server = World::new();
    let e = server.new_entity_id();
    let mut policy = public_policy(e);
    policy.owner = Some(client);
    policy.client_writable = Selection::Whitelist(vec![pos_id()]);
    server.set_component(e, policy.into_component());
    server.set_component(e, pos(1, 2));
    let mut replicator = EcsReplicator::new(client);
    replicator.server_update(&server);
    server.set_component(e, pos(5, 5));
    let cmds = replicator.server_update(&server);
    assert!(sets_of(&cmds, pos_id()).is_empty());
}

#[test]
fn client_sends_owned_writable_changes() {
    let client = ClientId(3);
    let mut world = World::new();
    let e = world.new_entity_id();
    let policy = Replicate {
        server_entity_id: ServerEntityId(EntityId(10)),
        owner: Some(client),
        replicate_to: Selection::all(),
        client_writable: Selection::Whitelist(vec![pos_id()]),
        replicated_components: Selection::all(),
        auto_replicate_changes: Selection::all(),
    };
    world.set_component(e, policy.into_component());
    world.set_component(e, pos(1, 1));
    let mut replicator = EcsReplicator::new(client);
    let first = replicator.client_update(&world);
    assert_eq!(first.len(), 1);
    assert_eq!(sets_of(&first, pos_id())[0].0, ServerEntityId(EntityId(10)));
    assert!(replicator.client_update(&world).is_empty());
    world.set_component(e, pos(2, 1));
    let third = replicator.client_update(&world);
    assert_eq!(third.len(), 1);
    assert!(sets_of(&third, pos_id())[0].1.value_eq(&pos(2, 1)));
}

#[test]
fn manual_replicate_sends_and_records() {
    let mut server = World::new();
    let e = server.new_entity_id();
    server.set_component(e, pos(4, 4));
    let mut replicator = EcsReplicator::new(ClientId(1));
    let cmd = replicator.replicate(&server, e, pos_id()).unwrap();
    assert_eq!(cmd.server_entity_id(), ServerEntityId(e));
    assert!(replicator.snapshot_component(ServerEntityId(e), pos_id()).unwrap().value_eq(&pos(4, 4)));
    assert!(replicator.replicate(&server, e, ComponentId(1)).is_none());
}

#[test]
fn tracker_first_update_is_silent_then_reports_change() {
    let mut world = World::new();
    let e = world.new_entity_id();
    world.set_component(e, pos(1, 2));
    let mut tracker = EntityComponentTracker::new(e, pos_id());
    assert!(tracker.update(&world).is_none());
    world.set_component(e, pos(1, 3));
    match tracker.update(&world) {
        Some(ComponentTrackerEvent::Changed { old, new }) => {
            assert!(old.value_eq(&pos(1, 2)));
            assert!(new.value_eq(&pos(1, 3)));
        },
        _ => panic!("expected a change event"),
    }
    world.set_component(e, pos(1, 3));
    assert!(tracker.update(&world).is_none());
}

#[test]
fn tracker_reports_added_and_removed() {
    let mut world = World::new();
    let e = world.new_entity_id();
    let mut tracker = EntityComponentTracker::new(e, pos_id());
    assert!(tracker.update(&world).is_none());
    world.set_component(e, pos(7, 7));
    assert!(matches!(tracker.update(&world), Some(ComponentTrackerEvent::Added(_))));
    world.delete_component(e, pos_id());
    match tracker.update(&world) {
        Some(ComponentTrackerEvent::Removed(v)) => assert!(v.value_eq(&pos(7, 7))),
        _ => panic!("expected a removal event"),
    }
}

#[test]
fn global_tracker_publishes_to_subscribers() {
    let mut world = World::new();
    let e = world.new_entity_id();
    world.set_component(e, pos(1, 1));
    let mut tracker = GlobalComponentTracker::new();
    let mut receiver = tracker.subscribe(e, pos_id());
    tracker.update(&world, 0);
    world.set_component(e, pos(2, 2));
    tracker.update(&world, 1);
    let sender = tracker.get_event_sender(e, pos_id());
    let events = receiver.recv_all(sender);
    assert_eq!(events.len(), 1);
    assert!(matches!(*events[0], ComponentTrackerEvent::Changed { .. }));
}

#[test]
fn global_tracker_forgets_pairs_without_receivers() {
    let mut world = World::new();
    let e = world.new_entity_id();
    world.set_component(e, pos(1, 1));
    let mut tracker = GlobalComponentTracker::new();
    tracker.subscribe(e, pos_id());
    world.set_component(e, pos(2, 2));
    world.delete_entity(e);
    tracker.clean(&world);
    let fresh = tracker.get_event_sender(e, pos_id());
    assert_eq!(fresh.receiver_count(), 0);
    assert_eq!(fresh.next_event_index(), 0);
}

#[test]
fn event_sender_is_made_on_first_request_and_kept() {
    let mut world = World::new();
    let e = world.new_entity_id();
    world.set_component(e, pos(1, 1));
    let mut tracker = GlobalComponentTracker::new();
    assert_eq!(tracker.get_event_sender(e, pos_id()).receiver_count(), 0);
    let receiver = tracker.subscribe(e, pos_id());
    assert_eq!(receiver.next_index(), 0);
    assert_eq!(tracker.get_event_sender(e, pos_id()).receiver_count(), 1);
    tracker.update(&world, 0);
    world.set_component(e, pos(4, 4));
    tracker.update_entity_component(&world, e, pos_id(), 1);
    assert_eq!(tracker.get_event_sender(e, pos_id()).next_event_index(), 1);
}

#[test]
fn world_change_events_flow_through_its_tracker() {
    let mut world = World::new();
    let e = world.new_entity_id();
    world.set_component(e, pos(1, 1));
    let mut receiver = world.subscribe_component_changes(e, pos_id());
    world.update_change_tracker(0);
    world.set_component(e, pos(2, 2));
    world.update_entity_change_tracker(e, Some(pos_id()), 1);
    world.update_entity_change_tracker(e, None, 2);
    let events = receiver.recv_all(world.get_component_changed_event_sender(e, pos_id()));
    assert_eq!(events.len(), 1);
    match &*events[0] {
        ComponentTrackerEvent::Changed { old, new } => {
            assert!(old.value_eq(&pos(1, 1)));
            assert!(new.value_eq(&pos(2, 2)));
        },
        _ => panic!("expected a change event"),
    }
}
