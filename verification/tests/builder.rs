//! Edge cases and the library's guarantees exercised on concrete values:
//! sibling chains, nested scopes, batch ordering, deferred-versus-eager
//! equivalence, empty spawns, re-attachment, and stale references.

use flat_commands::anti_features::WithId;
use flat_commands::Bundle;
use flat_commands::ChildPusher;
use flat_commands::Component;
use flat_commands::Entity;
use flat_commands::ParentCommands;
use flat_commands::World;

const KIND_X: u64 = 1;
const KIND_Y: u64 = 2;

fn comp_x() -> Component {
    Component { kind: KIND_X, value: 0 }
}

fn comp_y() -> Component {
    Component { kind: KIND_Y, value: 0 }
}

fn bx() -> Bundle {
    Bundle::single(comp_x())
}

fn by() -> Bundle {
    Bundle::single(comp_y())
}

fn by_batch(n: usize) -> Vec<Bundle> {
    let mut bundles: Vec<Bundle> = Vec::new();
    let mut i: usize = 0;
    while i < n {
        bundles.push(by());
        i += 1;
    }
    bundles
}

#[test]
fn with_id_hands_out_the_current_entity() {
    let mut world = World::new();
    let mut commands = world.commands();
    let root = commands.spawn_root(bx());
    let expected = root.id();
    root.with_id(|id| assert_eq!(id, expected));
    let child = root.with_child(&mut commands, by());
    let expected_child = child.id();
    child.with_id(|id| assert_eq!(id, expected_child));
}

#[test]
fn root_cursor_root_and_id_coincide() {
    let mut world = World::new();
    let mut commands = world.commands();
    let root = commands.spawn_root(bx());
    assert_eq!(root.id(), root.root_id());
    let existing = commands.root(root.id());
    assert_eq!(existing.id(), existing.root_id());
}

#[test]
fn sibling_chain_keeps_parent() {
    let mut world = World::new();
    let mut commands = world.commands();
    let root = commands.spawn_root(bx());
    let root_id = root.id();
    let mut cursor = root.with_child(&mut commands, by());
    let mut children: Vec<Entity> = Vec::new();
    children.push(cursor.id());
    let mut i: usize = 0;
    while i < 7 {
        cursor.with_sibling(&mut commands, by());
        assert_eq!(cursor.parent_id(), root_id);
        assert_eq!(cursor.root_id(), root_id);
        children.push(cursor.id());
        i += 1;
    }
    commands.flush(&mut world).unwrap();
    for &child in &children {
        assert_eq!(world.parent_of(child).unwrap(), root_id);
    }
    assert_eq!(world.children_of(root_id), children);
}

#[test]
fn spawn_root_then_children_scenario() {
    // root R with payload X; child C1, then two sibling advances: C2, C3
    let mut world = World::new();
    let mut commands = world.commands();
    let root = commands.spawn_root(bx());
    let root_id = root.id();
    let mut cursor = root.with_child(&mut commands, by());
    let c1 = cursor.id();
    cursor.with_sibling(&mut commands, by());
    let c2 = cursor.id();
    cursor.with_sibling(&mut commands, by());
    let c3 = cursor.id();
    commands.flush(&mut world).unwrap();
    assert_eq!(world.entity_count(), 4);
    assert_eq!(world.children_of(root_id), vec![c1, c2, c3]);
    assert_eq!(world.parent_of(c1).unwrap(), root_id);
    assert_eq!(world.parent_of(c2).unwrap(), root_id);
    assert_eq!(world.parent_of(c3).unwrap(), root_id);
}

#[test]
fn nested_scope_leaves_outer_cursor_untouched() {
    // spawn root R, descend to A, build two generations under A in a nested
    // scope, then advance the original A-cursor to a sibling B: B's parent
    // must be R, not anything created inside the scope
    let mut world = World::new();
    let mut commands = world.commands();
    let root = commands.spawn_root(bx());
    let root_id = root.id();
    let mut a_cursor = root.with_child(&mut commands, by());
    let a_id = a_cursor.id();
    let a_parent = a_cursor.parent_id();
    let local_root = a_cursor.with_descendants();
    assert_eq!(local_root.id(), a_id);
    let gen1 = local_root.with_child(&mut commands, by());
    let gen2 = gen1.with_child(&mut commands, by());
    assert_eq!(a_cursor.id(), a_id);
    assert_eq!(a_cursor.parent_id(), a_parent);
    a_cursor.with_sibling(&mut commands, by());
    let b_id = a_cursor.id();
    commands.flush(&mut world).unwrap();
    assert_eq!(world.parent_of(b_id).unwrap(), a_parent);
    assert_eq!(world.parent_of(b_id).unwrap(), root_id);
    assert_eq!(world.parent_of(gen1.id()).unwrap(), a_id);
    assert_eq!(world.parent_of(gen2.id()).unwrap(), gen1.id());
}

#[test]
fn batch_children_keep_input_order() {
    let mut world = World::new();
    let mut commands = world.commands();
    let root = commands.spawn_root(bx());
    let root_id = root.id();
    let mut bundles: Vec<Bundle> = Vec::new();
    let mut i: u64 = 0;
    while i < 6 {
        bundles.push(Bundle::single(Component { kind: 100 + i, value: i }));
        i += 1;
    }
    root.with_child_batch(&mut commands, bundles);
    commands.flush(&mut world).unwrap();
    assert_eq!(world.entity_count(), 7);
    let children = world.children_of(root_id);
    assert_eq!(children.len(), 6);
    let mut k: u64 = 0;
    for &child in &children {
        assert!(world.get_component(child, 100 + k).is_some());
        assert_eq!(world.parent_of(child).unwrap(), root_id);
        k += 1;
    }
}

#[test]
fn deferred_flush_equals_eager_application() {
    // the same interleaved inserts and links, once deferred through a queue
    // and once applied eagerly through the store interface, give the same
    // observable store
    let mut deferred = World::new();
    let mut commands = deferred.commands();
    let root = commands.spawn_root(bx());
    let root_id = root.id();
    let mut cursor = root.with_child(&mut commands, by());
    cursor.insert(&mut commands, Component { kind: 9, value: 1 });
    cursor.with_sibling(&mut commands, by());
    cursor.insert(&mut commands, Component { kind: 9, value: 2 });
    let c2 = cursor.id();
    commands.flush(&mut deferred).unwrap();

    let mut eager = World::new();
    let e_root = eager.spawn_with(&bx());
    let e_c1 = eager.spawn_with(&by());
    eager.attach_child(e_root, e_c1);
    eager.set_component(e_c1, Component { kind: 9, value: 1 });
    let e_c2 = eager.spawn_with(&by());
    eager.attach_child(e_root, e_c2);
    eager.set_component(e_c2, Component { kind: 9, value: 2 });

    assert_eq!(deferred.entity_count(), eager.entity_count());
    assert_eq!(world_children_ids(&deferred, root_id), world_children_ids(&eager, e_root));
    assert_eq!(
        deferred.get_component(c2, 9).unwrap().value,
        eager.get_component(e_c2, 9).unwrap().value
    );
}

fn world_children_ids(world: &World, parent: Entity) -> Vec<u64> {
    let mut ids: Vec<u64> = Vec::new();
    for child in world.children_of(parent) {
        ids.push(child.id);
    }
    ids
}

#[test]
fn insert_replaces_component_of_same_kind() {
    let mut world = World::new();
    let mut commands = world.commands();
    let root = commands.spawn_root(Bundle::single(Component { kind: 5, value: 10 }));
    let root_id = root.id();
    root.insert(&mut commands, Component { kind: 5, value: 20 });
    commands.flush(&mut world).unwrap();
    assert_eq!(world.get_component(root_id, 5).unwrap().value, 20);
}

#[test]
fn empty_spawns_carry_no_payload() {
    let mut world = World::new();
    let mut commands = world.commands();
    let root = commands.spawn_empty_root();
    let root_id = root.id();
    let empty_child = root.with_empty_child(&mut commands);
    let mut cursor = empty_child;
    cursor.with_empty_sibling(&mut commands);
    let sibling_id = cursor.id();
    commands.flush(&mut world).unwrap();
    assert_eq!(world.entity_count(), 3);
    assert!(!world.has_component(root_id, KIND_X));
    assert!(!world.has_component(sibling_id, KIND_Y));
    assert_eq!(world.parent_of(empty_child.id()).unwrap(), root_id);
    assert_eq!(world.parent_of(sibling_id).unwrap(), root_id);
}

#[test]
fn push_children_attaches_existing_entities() {
    let mut world = World::new();
    let loose_a = world.spawn_with(&by());
    let loose_b = world.spawn_with(&by());
    let mut commands = world.commands();
    let root = commands.spawn_root(bx());
    let root_id = root.id();
    root.push_children(&mut commands, &[loose_a, loose_b]);
    commands.flush(&mut world).unwrap();
    assert_eq!(world.entity_count(), 3);
    assert_eq!(world.children_of(root_id), vec![loose_a, loose_b]);
    assert_eq!(world.parent_of(loose_a).unwrap(), root_id);
    assert_eq!(world.parent_of(loose_b).unwrap(), root_id);
}

#[test]
fn add_child_links_without_advancing() {
    let mut world = World::new();
    let loose = world.spawn_with(&by());
    let mut commands = world.commands();
    let root = commands.spawn_root(bx());
    root.add_child(&mut commands, loose);
    commands.flush(&mut world).unwrap();
    assert_eq!(world.parent_of(loose).unwrap(), root.id());
}

#[test]
fn reattaching_moves_child_exactly_once() {
    // a child attached to a second parent leaves the first parent's list
    let mut world = World::new();
    let child = world.spawn_with(&by());
    let first = world.spawn_with(&bx());
    let second = world.spawn_with(&bx());
    world.attach_child(first, child);
    world.attach_child(second, child);
    assert_eq!(world.children_of(first).len(), 0);
    assert_eq!(world.children_of(second), vec![child]);
    assert_eq!(world.parent_of(child).unwrap(), second);
}

#[test]
fn despawn_detaches_both_sides_of_the_relation() {
    let mut world = World::new();
    let parent = world.spawn_with(&bx());
    let child = world.spawn_with(&by());
    world.attach_child(parent, child);
    // removing the child empties the parent's list
    assert!(world.despawn(child));
    assert!(!world.contains(child));
    assert_eq!(world.children_of(parent).len(), 0);
    assert!(!world.despawn(child));
    // removing a parent orphans its remaining children
    let orphan = world.spawn_with(&by());
    world.attach_child(parent, orphan);
    assert!(world.despawn(parent));
    assert!(world.contains(orphan));
    assert_eq!(world.parent_of(orphan), None);
    assert_eq!(world.entity_count(), 1);
}

#[test]
fn flush_after_despawn_reports_the_removed_entity() {
    let mut world = World::new();
    let doomed = world.spawn_with(&bx());
    let mut commands = world.commands();
    let cursor = commands.root(doomed);
    cursor.insert(&mut commands, comp_y());
    assert!(world.despawn(doomed));
    let err = commands.flush(&mut world).unwrap_err();
    assert_eq!(err.entity, doomed);
    assert_eq!(world.entity_count(), 0);
    assert_eq!(commands.pending(), 0);
}

#[test]
fn flush_rejects_stale_reference_and_applies_nothing() {
    let mut world = World::new();
    let mut stale_queue = world.commands();
    let mut other_queue = world.commands();
    // an id reserved by another queue is stale for this one
    let foreign = other_queue.spawn_root(bx()).id();
    let cursor = stale_queue.root(foreign);
    cursor.insert(&mut stale_queue, comp_x());
    let err = stale_queue.flush(&mut world).unwrap_err();
    assert_eq!(err.entity, foreign);
    assert_eq!(world.entity_count(), 0);
    assert_eq!(stale_queue.pending(), 0);
}

#[test]
fn flush_of_empty_queue_is_ok() {
    let mut world = World::new();
    let mut commands = world.commands();
    assert!(commands.flush(&mut world).is_ok());
    assert_eq!(world.entity_count(), 0);
}

#[test]
fn total_count_matches_spawn_calls() {
    // one root plus every individually- and batch-spawned child
    let mut world = World::new();
    let mut commands = world.commands();
    let root = commands.spawn_root(bx());
    let mut cursor = root.with_child(&mut commands, by());
    cursor.with_sibling(&mut commands, by());
    cursor.with_sibling(&mut commands, by());
    cursor.with_child_batch(&mut commands, by_batch(4));
    root.with_child_batch(&mut commands, by_batch(5));
    commands.flush(&mut world).unwrap();
    assert_eq!(world.entity_count(), 1 + 3 + 4 + 5);
}
