use brownian::agents::Agents;
use brownian::shapes::ShapeKind;

/// A handle of the kind a physics engine hands out: an index and a generation.
type Handle = (u32, u32);

/// Slots are recycled, which keeps bounded the `N` a policy sees however many
/// bodies the user creates and removes.
#[test]
fn slots_are_recycled() {
    let mut agents: Agents<Handle, f32> = Agents::new();
    let a = agents.allocate((0, 0), ShapeKind::Ball, 10.0);
    let b = agents.allocate((1, 0), ShapeKind::Ball, 10.0);
    assert_eq!((a, b), (0, 1));

    agents.free_slot(a);
    assert_eq!(agents.count(), 1);
    assert_eq!(agents.get(a), None, "el slot borrado sigue vivo");

    let c = agents.allocate((2, 0), ShapeKind::Ball, 10.0);
    assert_eq!(c, a, "el slot libre no se reutilizo");
    assert_eq!(agents.count(), 2);
}

#[test]
fn freed_slots_are_reused_most_recent_first() {
    let mut agents: Agents<Handle, f32> = Agents::default();
    for i in 0..5 {
        assert_eq!(agents.allocate((i, 0), ShapeKind::Square, 1.0), i);
    }
    assert_eq!(agents.free_slot(1), Some((1, 0)));
    assert_eq!(agents.free_slot(3), Some((3, 0)));
    assert_eq!(agents.allocate((7, 1), ShapeKind::Triangle, 2.0), 3);
    assert_eq!(agents.allocate((8, 1), ShapeKind::Capsule, 3.0), 1);
    // No free slot is left: the table grows.
    assert_eq!(agents.allocate((9, 1), ShapeKind::Ball, 4.0), 5);
    assert_eq!(agents.capacity(), 6);
    assert_eq!(agents.count(), 6);
    assert_eq!(agents.shape(1), ShapeKind::Capsule);
    assert_eq!(*agents.size(3), 2.0);
}

#[test]
fn freeing_twice_or_out_of_range_changes_nothing() {
    let mut agents: Agents<Handle, f32> = Agents::new();
    let a = agents.allocate((4, 4), ShapeKind::Ball, 1.0);
    assert_eq!(agents.free_slot(a), Some((4, 4)));
    assert_eq!(agents.free_slot(a), None);
    assert_eq!(agents.free_slot(57), None);
    assert_eq!(agents.count(), 0);
    assert_eq!(agents.capacity(), 1);
    // The single free slot is handed out once, not twice.
    assert_eq!(agents.allocate((5, 0), ShapeKind::Ball, 1.0), 0);
    assert_eq!(agents.allocate((6, 0), ShapeKind::Ball, 1.0), 1);
}

#[test]
fn alive_lists_live_slots_in_order() {
    let mut agents: Agents<Handle, f32> = Agents::new();
    for i in 0..4 {
        agents.allocate((i, 9), ShapeKind::Ball, 1.0);
    }
    agents.free_slot(0);
    agents.free_slot(2);
    assert_eq!(agents.alive(), vec![(1, (1, 9)), (3, (3, 9))]);
    assert_eq!(agents.get(3), Some((3, 9)));
    assert_eq!(agents.get(4), None);
}

#[test]
fn clear_forgets_every_slot() {
    let mut agents: Agents<Handle, f32> = Agents::new();
    agents.allocate((0, 0), ShapeKind::Ball, 1.0);
    agents.allocate((1, 0), ShapeKind::Ball, 1.0);
    agents.free_slot(0);
    agents.clear();
    assert_eq!(agents.count(), 0);
    assert_eq!(agents.capacity(), 0);
    assert!(agents.alive().is_empty());
    assert_eq!(agents.allocate((2, 0), ShapeKind::Ball, 1.0), 0);
}

#[test]
fn default_table_is_empty() {
    let agents: Agents<u32, u32> = Agents::default();
    assert_eq!(agents.capacity(), 0);
    assert_eq!(agents.count(), 0);
    assert!(agents.alive().is_empty());
}
