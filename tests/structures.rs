use hydrogen_ecs::component::{Component, ComponentBundle, ComponentData, SerializableComponentBundle};
use hydrogen_ecs::cube_array::{CubeArray, GridPosition};
use hydrogen_ecs::events::{EventSender, DEFAULT_EXPIRATION_MILLIS};
use hydrogen_ecs::ids::{ClientId, ComponentId};
use hydrogen_ecs::indexed_container::IndexedContainer;
use hydrogen_ecs::math::{Axis, Direction, DirectionMap, Sign};
use hydrogen_ecs::paletted_bitfield::{get_required_bits, PalettedBitfield};
use hydrogen_ecs::selection::Selection;

#[test]
fn selection_none_and_all() {
    let none: Selection<ClientId> = Selection::none();
    let all: Selection<ClientId> = Selection::all();
    for i in [0u32, 1, 7, u32::MAX] {
        assert!(!none.contains(&ClientId(i)));
        assert!(all.contains(&ClientId(i)));
    }
}

#[test]
fn selection_insert_and_remove() {
    let mut black: Selection<ClientId> = Selection::all();
    assert!(black.insert(ClientId(3)));
    assert!(!black.insert(ClientId(3)));
    assert!(!black.contains(&ClientId(3)));
    assert!(black.contains(&ClientId(4)));
    let mut white: Selection<ClientId> = Selection::Whitelist(vec![ClientId(1), ClientId(2), ClientId(3)]);
    assert_eq!(white.remove(&ClientId(1)), Some(ClientId(1)));
    assert_eq!(white.get_values(), &vec![ClientId(3), ClientId(2)]);
    assert_eq!(white.remove(&ClientId(9)), None);
    assert!(white.contains(&ClientId(2)));
}

#[test]
fn events_arrive_in_order_once() {
    let mut sender: EventSender<u32> = EventSender::default_expiration();
    let mut receiver = sender.subscribe();
    sender.send(10, 0);
    sender.send(20, 1);
    assert_eq!(receiver.peek(&sender).map(|v| *v), Some(10));
    assert_eq!(receiver.recv(&sender).map(|v| *v), Some(10));
    sender.send(30, 2);
    let rest: Vec<u32> = receiver.recv_all(&sender).iter().map(|v| **v).collect();
    assert_eq!(rest, vec![20, 30]);
    assert!(receiver.recv_all(&sender).is_empty());
    assert!(receiver.recv(&sender).is_none());
}

#[test]
fn late_subscriber_sees_only_later_events() {
    let mut sender: EventSender<u32> = EventSender::new(1000);
    sender.send(1, 0);
    let mut receiver = sender.subscribe();
    sender.send(2, 0);
    let got: Vec<u32> = receiver.recv_all(&sender).iter().map(|v| **v).collect();
    assert_eq!(got, vec![2]);
}

#[test]
fn expired_events_are_dropped() {
    let mut sender: EventSender<u32> = EventSender::new(100);
    let mut receiver = sender.subscribe();
    sender.send(1, 0);
    sender.send(2, 150);
    let got: Vec<u32> = receiver.recv_all(&sender).iter().map(|v| **v).collect();
    assert!(got.is_empty());
    assert_eq!(DEFAULT_EXPIRATION_MILLIS, 30000);
}

#[test]
fn named_receiver_shares_one_cursor() {
    let mut sender: EventSender<u32> = EventSender::default_expiration();
    let first = sender.named_receiver("ui".to_string());
    sender.send(5, 0);
    sender.send(6, 1);
    assert_eq!(sender.recv_named(&first).map(|v| *v), Some(5));
    let again = sender.named_receiver("ui".to_string());
    let rest: Vec<u32> = sender.recv_all_named(&again).iter().map(|v| **v).collect();
    assert_eq!(rest, vec![6]);
    assert!(sender.recv_named(&first).is_none());
    assert_eq!(sender.receiver_count(), 1);
    let other = sender.named_receiver("net".to_string());
    assert!(sender.recv_named(&other).is_none());
    sender.send(7, 2);
    assert_eq!(sender.recv_named(&other).map(|v| *v), Some(7));
    assert_eq!(sender.recv_named(&first).map(|v| *v), Some(7));
    assert_eq!(sender.receiver_count(), 2);
}

#[test]
fn unsubscribe_lowers_receiver_count() {
    let mut sender: EventSender<u32> = EventSender::default_expiration();
    let r = sender.subscribe();
    assert_eq!(sender.receiver_count(), 1);
    sender.unsubscribe(r);
    assert_eq!(sender.receiver_count(), 0);
}

#[test]
fn indexed_container_offsets_indices() {
    let mut c: IndexedContainer<char> = IndexedContainer::new();
    c.push('a');
    c.push_repeated('b', 3);
    assert_eq!(c.indices, vec![0, 1, 1, 1]);
    c.push_relative_indexed(vec!['c', 'd'], vec![0, 1, 0]);
    assert_eq!(c.items, vec!['a', 'b', 'c', 'd']);
    assert_eq!(c.indices, vec![0, 1, 1, 1, 2, 3, 2]);
    let mut other: IndexedContainer<char> = IndexedContainer::with_capacity(1, 1);
    other.push('e');
    c.push_container(other);
    assert_eq!(c.indices.last(), Some(&4));
    c.clear();
    assert!(c.items.is_empty() && c.indices.is_empty());
}

#[test]
fn sign_and_direction_map() {
    assert!(Sign::Positive.is_positive());
    assert!(Sign::Negative.is_negative());
    assert_eq!(Sign::Positive.neg(), Sign::Negative);
    let map = DirectionMap::top_sides_bottom(&1, &2, &3);
    assert_eq!(*map.get(Direction { axis: Axis::Y, sign: Sign::Positive }), 1);
    assert_eq!(*map.get(Direction { axis: Axis::Y, sign: Sign::Negative }), 3);
    assert_eq!(*map.get(Direction { axis: Axis::X, sign: Sign::Negative }), 2);
    let mut uni = DirectionMap::uniform(&7);
    let d = Direction { axis: Axis::Z, sign: Sign::Positive };
    assert_eq!(uni.set(d, 9), 7);
    assert_eq!(*uni.get(d), 9);
    assert_eq!(uni.neg_z, 7);
}

#[test]
fn required_bits_and_empty_bitfield() {
    assert_eq!(get_required_bits(0), 0);
    assert_eq!(get_required_bits(1), 0);
    assert_eq!(get_required_bits(2), 1);
    assert_eq!(get_required_bits(3), 2);
    assert_eq!(get_required_bits(4), 2);
    assert_eq!(get_required_bits(5), 3);
    assert_eq!(get_required_bits(usize::MAX), 64);
    let field: PalettedBitfield<ClientId> = PalettedBitfield::new();
    assert_eq!(field.len(), 0);
    assert!(field.is_empty());
    let wide: PalettedBitfield<ClientId> = PalettedBitfield::with_bit_width(8);
    assert!(wide.is_empty());
}

#[test]
fn paletted_bitfield_round_trips_items() {
    let items: Vec<ClientId> = (0..200u32).map(|i| ClientId((i * 7) % 13)).collect();
    let field = PalettedBitfield::with_items(&items);
    assert_eq!(field.len(), 200);
    assert_eq!(field.unpack(), items);
    for (i, item) in items.iter().enumerate() {
        assert_eq!(field.get(i), Some(item));
    }
    assert_eq!(field.get(200), None);
}

#[test]
fn paletted_bitfield_set_push_pop() {
    let mut field: PalettedBitfield<ClientId> = PalettedBitfield::new();
    field.push(&ClientId(5));
    field.push(&ClientId(5));
    assert_eq!(field.unpack(), vec![ClientId(5), ClientId(5)]);
    assert!(field.set(1, &ClientId(9)));
    assert!(!field.set(2, &ClientId(9)));
    for i in 0..70u32 {
        field.push(&ClientId(i));
    }
    assert_eq!(field.get(0), Some(&ClientId(5)));
    assert_eq!(field.get(1), Some(&ClientId(9)));
    assert_eq!(field.get(71), Some(&ClientId(69)));
    assert_eq!(field.pop(), Some(ClientId(69)));
    assert_eq!(field.len(), 71);
    field.resize(73);
    assert_eq!(field.get(72), Some(&ClientId(5)));
    let mut empty: PalettedBitfield<ClientId> = PalettedBitfield::new();
    assert_eq!(empty.pop(), None);
}

#[test]
fn cube_array_indices_and_positions() {
    let mut cube: CubeArray<u8> = CubeArray::cloned(3, 1);
    let p = GridPosition { x: 1, y: 2, z: 1 };
    assert_eq!(cube.get_index(p), Some(1 + 2 * 3 + 9));
    assert_eq!(cube.get_position(16), Some(p));
    assert_eq!(cube.get_index(GridPosition { x: 3, y: 0, z: 0 }), None);
    assert_eq!(cube.get_index(GridPosition { x: -1, y: 0, z: 0 }), None);
    assert_eq!(cube.get_position(27), None);
    assert_eq!(cube.set(p, 5), 1);
    assert_eq!(*cube.get(p), 5);
    assert_eq!(cube.try_set(GridPosition { x: 0, y: 0, z: 9 }, 4), None);
    assert_eq!(cube.try_get(GridPosition { x: 0, y: 0, z: 0 }), Some(&1));
    let zeros: CubeArray<u8> = CubeArray::new(2);
    assert_eq!(zeros.try_get(GridPosition { x: 1, y: 1, z: 1 }), Some(&0));
}

#[test]
fn component_bundle_holds_one_of_each_type() {
    let a = ComponentId(1);
    let b = ComponentId(2);
    let mut bundle = ComponentBundle::new();
    assert!(bundle.set_component(Component { component_id: a, data: ComponentData::Serializable(vec![1]) }).is_none());
    let old = bundle.set_component(Component { component_id: a, data: ComponentData::Serializable(vec![2]) }).unwrap();
    assert!(matches!(&old.data, ComponentData::Serializable(v) if v == &vec![1u8]));
    assert!(bundle.has_component(a));
    assert!(!bundle.has_component(b));
    assert!(bundle.query(&[a], &[b]).is_some());
    assert!(bundle.query(&[a, b], &[]).is_none());
    assert!(bundle.query(&[], &[]).is_none());
    bundle.set_component(Component { component_id: b, data: ComponentData::Local(vec![3]) });
    assert!(bundle.query(&[a], &[b]).is_none());
    assert!(bundle.delete_component(a).is_some());
    assert!(bundle.get_component(a).is_none());
    assert!(bundle.get_component(b).is_some());
}

#[test]
fn bundle_mutation_and_iteration() {
    let a = ComponentId(1);
    let b = ComponentId(2);
    let mut bundle = ComponentBundle::new();
    bundle.set_component(Component { component_id: a, data: ComponentData::Serializable(vec![1]) });
    bundle.set_component(Component { component_id: b, data: ComponentData::Local(vec![2]) });
    if let Some(data) = bundle.get_component_mut(a) {
        *data = ComponentData::Serializable(vec![7]);
    }
    assert!(bundle.get_component(a).unwrap().value_eq(&Component { component_id: a, data: ComponentData::Serializable(vec![7]) }));
    assert!(bundle.get_component_mut(ComponentId(3)).is_none());
    assert_eq!(bundle.iter().len(), 2);
    let ser = bundle.iter_serializable();
    assert_eq!(ser.len(), 1);
    assert_eq!(ser[0].component_id, a);
}

#[test]
fn serializable_bundle_holds_serializable_values() {
    let a = ComponentId(1);
    let mut bundle = SerializableComponentBundle::new();
    assert!(bundle.set_component(Component { component_id: a, data: ComponentData::Serializable(vec![1]) }).is_none());
    assert!(bundle.has_component(a));
    assert!(bundle.query(&[a], &[]).is_some());
    assert!(bundle.query(&[], &[]).is_none());
    assert_eq!(bundle.iter().len(), 1);
    assert!(bundle.delete_component(a).is_some());
    assert!(bundle.get_component(a).is_none());
}
