use hydrogen_ecs::component::{Component, ComponentData, ComponentSet};
use hydrogen_ecs::ids::{ClientId, ComponentId, EntityId, ServerEntityId};
use hydrogen_ecs::replication::{NetEcsCommand, Replicate};
use hydrogen_ecs::selection::Selection;
use hydrogen_ecs::world::World;

fn position_id() -> ComponentId {
    ComponentId::from_type_name("Position")
}

fn velocity_id() -> ComponentId {
    ComponentId::from_type_name("Velocity")
}

fn position(x: u8, y: u8) -> Component {
    Component { component_id: position_id(), data: ComponentData::Serializable(vec![x, y]) }
}

fn velocity(x: u8) -> Component {
    Component { component_id: velocity_id(), data: ComponentData::Local(vec![x]) }
}

#[test]
fn component_id_is_fnv1a_of_type_name() {
    assert_eq!(ComponentId::from_type_name("Position"), ComponentId(13934449531345340970));
    assert_eq!(Replicate::component_type_id(), ComponentId(10397475084415219684));
    assert_ne!(position_id(), velocity_id());
}

#[test]
fn set_then_get_returns_value_and_entity_exists() {
    let mut world = World::new();
    let e = world.new_entity_id();
    assert!(!world.has_entity(e));
    assert!(world.set_component(e, position(1, 2)).is_none());
    let stored = world.get_component(e, position_id()).unwrap();
    assert!(stored.value_eq(&position(1, 2)));
    assert!(world.has_entity(e));
    assert!(world.has_component(e, position_id()));
    assert!(!world.has_component(e, velocity_id()));
}

#[test]
fn set_returns_replaced_value() {
    let mut world = World::new();
    let e = world.new_entity_id();
    world.set_component(e, position(1, 2));
    let old = world.set_component(e, position(3, 4)).unwrap();
    assert!(old.value_eq(&position(1, 2)));
    assert!(world.get_component(e, position_id()).unwrap().value_eq(&position(3, 4)));
}

#[test]
fn deleting_only_component_removes_entity_without_reusing_id() {
    let mut world = World::new();
    let e = world.new_entity_id();
    world.set_component(e, position(1, 2));
    let removed = world.delete_component(e, position_id()).unwrap();
    assert!(removed.value_eq(&position(1, 2)));
    assert!(!world.has_entity(e));
    let next = world.new_entity_id();
    assert_ne!(next, e);
    assert_eq!(next, EntityId(1));
}

#[test]
fn delete_entity_removes_every_component() {
    let mut world = World::new();
    let e = world.new_entity_id();
    let other = world.new_entity_id();
    world.set_component(e, position(1, 2));
    world.set_component(e, velocity(5));
    world.set_component(other, position(7, 7));
    assert!(world.delete_entity(e));
    assert!(!world.has_entity(e));
    assert!(world.has_entity(other));
    assert!(!world.delete_entity(e));
}

#[test]
fn query_selects_with_and_without() {
    let mut world = World::new();
    let a = world.new_entity_id();
    let b = world.new_entity_id();
    let c = world.new_entity_id();
    world.set_component(a, position(1, 1));
    world.set_component(b, position(2, 2));
    world.set_component(b, velocity(3));
    world.set_component(c, velocity(4));
    let with_pos: Vec<EntityId> = world.query(&[position_id()], &[]).iter().map(|r| r.0).collect();
    assert_eq!(with_pos, vec![a, b]);
    let pos_not_vel: Vec<EntityId> = world.query(&[position_id()], &[velocity_id()]).iter().map(|r| r.0).collect();
    assert_eq!(pos_not_vel, vec![a]);
    let both = world.query(&[position_id(), velocity_id()], &[]);
    assert_eq!(both.len(), 1);
    assert_eq!(both[0].0, b);
    assert!(both[0].1[0].value_eq(&position(2, 2)));
    assert!(both[0].1[1].value_eq(&velocity(3)));
}

#[test]
fn query_with_empty_with_list_needs_existing_entity() {
    let mut world = World::new();
    let a = world.new_entity_id();
    let b = world.new_entity_id();
    world.set_component(b, velocity(1));
    assert!(world.query_one(a, &[], &[]).is_none());
    assert!(world.query_one(b, &[], &[]).is_some());
    let all: Vec<EntityId> = world.query(&[], &[]).iter().map(|r| r.0).collect();
    assert_eq!(all, vec![b]);
}

#[test]
fn query_scans_up_to_highest_entity() {
    let mut world = World::new();
    let mut last = EntityId(0);
    for _ in 0..5 {
        last = world.new_entity_id();
    }
    world.set_component(last, position(9, 9));
    let ids: Vec<EntityId> = world.query(&[position_id()], &[]).iter().map(|r| r.0).collect();
    assert_eq!(ids, vec![EntityId(4)]);
}

#[test]
fn query_twice_gives_same_result() {
    let mut world = World::new();
    for i in 0..4u8 {
        let e = world.new_entity_id();
        if i % 2 == 0 {
            world.set_component(e, position(i, i));
        }
    }
    let first: Vec<EntityId> = world.query(&[position_id()], &[]).iter().map(|r| r.0).collect();
    let second: Vec<EntityId> = world.query(&[position_id()], &[]).iter().map(|r| r.0).collect();
    assert_eq!(first, second);
    assert_eq!(first, vec![EntityId(0), EntityId(2)]);
}

#[test]
fn component_set_reuses_freed_slots() {
    let mut set = ComponentSet::new(position_id());
    set.set(EntityId(0), position(1, 1));
    set.set(EntityId(3), position(2, 2));
    assert_eq!(set.index_len(), 4);
    assert!(set.delete(EntityId(0)).is_some());
    assert!(!set.has_entity(EntityId(0)));
    set.set(EntityId(5), position(3, 3));
    assert!(set.get(EntityId(5)).unwrap().value_eq(&position(3, 3)));
    assert!(set.get(EntityId(3)).unwrap().value_eq(&position(2, 2)));
    assert_eq!(set.index_len(), 6);
    assert!(set.delete(EntityId(0)).is_none());
}

#[test]
fn get_all_components_lists_each_once() {
    let mut world = World::new();
    let e = world.new_entity_id();
    world.set_component(e, position(1, 2));
    world.set_component(e, velocity(3));
    assert_eq!(world.get_all_components(e).len(), 2);
    let ser = world.get_all_serializable_components(e);
    assert_eq!(ser.len(), 1);
    assert_eq!(ser[0].component_id, position_id());
}

#[test]
fn net_command_maps_server_ids_to_local_entities() {
    let mut world = World::new();
    let server_id = ServerEntityId(EntityId(42));
    world.execute_net_command(NetEcsCommand::SetComponent(server_id, position(1, 2)));
    let local = world.entity_id_from_server(server_id);
    assert_eq!(local, EntityId(0));
    assert!(world.get_component(local, position_id()).unwrap().value_eq(&position(1, 2)));
    world.execute_net_command(NetEcsCommand::DeleteComponent(server_id, position_id()));
    assert!(!world.has_entity(local));
    world.execute_net_command(NetEcsCommand::SetComponent(server_id, position(5, 5)));
    world.execute_net_command(NetEcsCommand::DeleteEntity(server_id));
    assert!(!world.has_entity(local));
    assert_eq!(world.entity_id_from_server(server_id), local);
}

fn owned_policy(owner: Option<ClientId>, writable: Selection<ComponentId>, e: EntityId) -> Replicate {
    Replicate {
        server_entity_id: ServerEntityId(e),
        owner,
        replicate_to: Selection::all(),
        client_writable: writable,
        replicated_components: Selection::all(),
        auto_replicate_changes: Selection::all(),
    }
}

#[test]
fn client_write_without_permission_is_rejected() {
    let mut world = World::new();
    let client = ClientId(7);
    let e = world.new_entity_id();
    world.set_component(e, owned_policy(Some(client), Selection::Blacklist(vec![position_id()]), e).into_component());
    world.set_component(e, position(1, 2));
    world.execute_client_net_command(client, NetEcsCommand::SetComponent(ServerEntityId(e), position(9, 9)));
    assert!(world.get_component(e, position_id()).unwrap().value_eq(&position(1, 2)));
}

#[test]
fn client_write_with_permission_is_applied() {
    let mut world = World::new();
    let client = ClientId(7);
    let e = world.new_entity_id();
    world.set_component(e, owned_policy(Some(client), Selection::Whitelist(vec![position_id()]), e).into_component());
    world.set_component(e, position(1, 2));
    world.execute_client_net_command(ClientId(8), NetEcsCommand::SetComponent(ServerEntityId(e), position(4, 4)));
    assert!(world.get_component(e, position_id()).unwrap().value_eq(&position(1, 2)));
    world.execute_client_net_command(client, NetEcsCommand::SetComponent(ServerEntityId(e), position(9, 9)));
    assert!(world.get_component(e, position_id()).unwrap().value_eq(&position(9, 9)));
}

#[test]
fn client_cannot_write_replicate_or_delete() {
    let mut world = World::new();
    let client = ClientId(7);
    let e = world.new_entity_id();
    world.set_component(e, owned_policy(Some(client), Selection::all(), e).into_component());
    world.set_component(e, position(1, 2));
    let hostile = owned_policy(Some(ClientId(9)), Selection::all(), e).into_component();
    world.execute_client_net_command(client, NetEcsCommand::SetComponent(ServerEntityId(e), hostile));
    let rep = world.get_component(e, Replicate::component_type_id()).unwrap().as_replicate().unwrap();
    assert_eq!(rep.owner, Some(client));
    world.execute_client_net_command(client, NetEcsCommand::DeleteEntity(ServerEntityId(e)));
    world.execute_client_net_command(client, NetEcsCommand::DeleteComponent(ServerEntityId(e), position_id()));
    assert!(world.has_component(e, position_id()));
}

#[test]
fn component_changes_in_place_keep_their_type() {
    let mut world = World::new();
    let e = world.new_entity_id();
    world.set_component(e, position(1, 2));
    match world.get_component_mut(e, position_id()) {
        Some(data) => *data = ComponentData::Serializable(vec![8, 9]),
        None => panic!("expected the component"),
    }
    assert!(world.get_component(e, position_id()).unwrap().value_eq(&position(8, 9)));
    assert!(world.get_component_mut(e, velocity_id()).is_none());
    assert!(world.get_component_mut(EntityId(5), position_id()).is_none());
}
