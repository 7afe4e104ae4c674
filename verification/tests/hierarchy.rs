//! Hierarchy-building scenarios: spawning a root, descending to children,
//! advancing to siblings, nesting scopes, and batch-spawning, each checked
//! against the store after a flush.

use flat_commands::Bundle;
use flat_commands::Component;
use flat_commands::Entity;
use flat_commands::ParentCommands;
use flat_commands::World;

const KIND_X: u64 = 1;
const KIND_Y: u64 = 2;

fn comp_x() -> Component {
    Component { kind: KIND_X, value: 0 }
}

fn comp_y() -> Component {
    Component { kind: KIND_Y, value: 0 }
}

fn bx() -> Bundle {
    Bundle::single(comp_x())
}

fn by() -> Bundle {
    Bundle::single(comp_y())
}

fn by_batch(n: usize) -> Vec<Bundle> {
    let mut bundles: Vec<Bundle> = Vec::new();
    let mut i: usize = 0;
    while i < n {
        bundles.push(by());
        i += 1;
    }
    bundles
}

fn count_with_kind(world: &World, kind: u64) -> usize {
    let mut count: usize = 0;
    for e in world.entities() {
        if world.has_component(e, kind) {
            count += 1;
        }
    }
    count
}

fn count_with_kind_and_parent(world: &World, kind: u64) -> usize {
    let mut count: usize = 0;
    for e in world.entities() {
        if world.has_component(e, kind) && world.parent_of(e).is_some() {
            count += 1;
        }
    }
    count
}

fn count_with_kind_and_children(world: &World, kind: u64) -> usize {
    let mut count: usize = 0;
    for e in world.entities() {
        if world.has_component(e, kind) && !world.children_of(e).is_empty() {
            count += 1;
        }
    }
    count
}

fn count_with_children(world: &World) -> usize {
    let mut count: usize = 0;
    for e in world.entities() {
        if !world.children_of(e).is_empty() {
            count += 1;
        }
    }
    count
}

#[test]
fn lib_test_hierachy_1() {
    let mut world = World::new();
    let mut commands = world.commands();
    let root_id = commands.spawn_root(bx()).id();
    let child_id = commands.root(root_id).with_child(&mut commands, by()).id();
    commands.flush(&mut world).unwrap();
    assert_eq!(world.entity_count(), 2);
    assert!(world.get_component(root_id, KIND_X).is_some());
    assert!(world.get_component(child_id, KIND_Y).is_some());
    let children = world.children_of(root_id);
    assert_eq!(children[0], child_id);
    let parent = world.parent_of(child_id).unwrap();
    assert_eq!(parent, root_id);
}

#[test]
fn test_hierachy_2() {
    let mut world = World::new();
    let mut commands = world.commands();
    let root_id = commands.spawn_root(bx()).id();
    let mut round: usize = 0;
    while round < 10 {
        let root = commands.root(root_id);
        let c1 = root.with_child(&mut commands, by());
        let c2 = c1.with_child(&mut commands, by());
        let mut c3 = c2.with_child(&mut commands, by());
        c3.with_sibling(&mut commands, by());
        c3.with_sibling(&mut commands, by());
        round += 1;
    }
    commands.flush(&mut world).unwrap();
    assert_eq!(world.entity_count(), 51);
    assert!(world.get_component(root_id, KIND_X).is_some());
    assert_eq!(world.children_of(root_id).len(), 10);
    assert_eq!(count_with_kind(&world, KIND_X), 1);
    assert_eq!(count_with_kind(&world, KIND_Y), 50);
    assert_eq!(count_with_children(&world), 21);
}

#[test]
fn test_hierachy_3() {
    let mut world = World::new();
    let mut commands = world.commands();
    let root = commands.spawn_root(bx()).id();
    let a = commands.root(root).with_child(&mut commands, bx()).id();
    let b = commands.root(root).with_child(&mut commands, bx()).id();
    let mut under_a = commands.root(a).with_child(&mut commands, by());
    under_a.with_sibling(&mut commands, by());
    let mut under_b = commands.root(b).with_child(&mut commands, by());
    under_b.with_sibling(&mut commands, by());
    commands.flush(&mut world).unwrap();
    assert_eq!(world.entity_count(), 7);
    for e in world.entities() {
        let children = world.children_of(e);
        if !children.is_empty() {
            assert_eq!(children.len(), 2);
        }
    }
}

#[test]
fn test_heirachy_4() {
    let mut world = World::new();
    let mut commands = world.commands();
    let root = commands.spawn_root(bx());
    let mut c1 = root.with_child(&mut commands, bx());
    let local_root = c1.with_descendants();
    let mut d1 = local_root.with_child(&mut commands, by());
    d1.with_sibling(&mut commands, by());
    c1.with_sibling(&mut commands, bx());
    let local_root_2 = c1.with_descendants();
    let mut d2 = local_root_2.with_child(&mut commands, by());
    d2.with_sibling(&mut commands, by());
    commands.flush(&mut world).unwrap();
}

#[test]
fn test_hierachy_5() {
    let mut world = World::new();
    let mut commands = world.commands();
    let root = commands.spawn_root(bx());

    let cx1 = root.with_child(&mut commands, bx());
    let mut cx2 = cx1.with_child(&mut commands, bx());
    cx2.with_sibling(&mut commands, bx());

    let cy1 = root.with_child(&mut commands, by());
    let mut cy2 = cy1.with_child(&mut commands, by());
    cy2.with_sibling(&mut commands, by());

    commands.flush(&mut world).unwrap();
    assert_eq!(world.entity_count(), 7);
    assert_eq!(count_with_kind_and_parent(&world, KIND_X), 3);
    assert_eq!(count_with_kind_and_parent(&world, KIND_Y), 3);
    assert_eq!(count_with_kind_and_children(&world, KIND_X), 2);
    assert_eq!(count_with_kind_and_children(&world, KIND_Y), 1);
}

#[test]
fn test_heirarchy_6() {
    let mut world = World::new();
    let mut commands = world.commands();
    let root = commands.spawn_root(bx());
    let root_id = root.id();
    let mut child = root.with_child(&mut commands, by());
    child.with_sibling(&mut commands, by());
    commands.flush(&mut world).unwrap();
    assert_eq!(world.entity_count(), 3);
    let children = world.children_of(root_id);
    assert_eq!(children.len(), 2);
    for child in children {
        let parent = world.parent_of(child).unwrap();
        assert_eq!(root_id, parent);
    }
}

#[test]
fn test_hierachy_7() {
    let mut world = World::new();
    let mut commands = world.commands();
    let root = commands.spawn_root(bx());
    root.with_child_batch(&mut commands, by_batch(10));
    let root_id = root.root_id();
    commands.flush(&mut world).unwrap();
    assert_eq!(world.entity_count(), 11);
    assert!(world.get_component(root_id, KIND_X).is_some());
    assert_eq!(world.children_of(root_id).len(), 10);
    assert_eq!(count_with_kind(&world, KIND_Y), 10);
}

#[test]
fn test_hierachy_8() {
    let mut world = World::new();
    let mut commands = world.commands();
    let root = commands.spawn_root(bx());
    let child = root.with_child(&mut commands, by());
    child.with_child_batch(&mut commands, by_batch(10));
    commands.flush(&mut world).unwrap();
    assert_eq!(world.entity_count(), 12);
}

#[test]
fn test_hierachy_9() {
    let mut world = World::new();
    let mut commands = world.commands();
    let root = commands.spawn_root(bx());
    let mut c = root.with_child(&mut commands, by());
    c.with_child_batch(&mut commands, by_batch(10));
    c.insert(&mut commands, comp_x());
    c.with_child_batch(&mut commands, by_batch(10));
    c.with_sibling(&mut commands, by());
    c.with_child_batch(&mut commands, by_batch(10));
    c.with_sibling(&mut commands, by());
    c.insert(&mut commands, comp_y());
    let mut c4 = c.with_child(&mut commands, bx());
    c4.with_child_batch(&mut commands, by_batch(10));
    let local_root = c4.with_descendants();
    local_root.with_child_batch(&mut commands, by_batch(10));
    c4.with_child_batch(&mut commands, by_batch(10));
    commands.flush(&mut world).unwrap();
    assert_eq!(world.entity_count(), 65);
}

#[test]
fn anti_features_test_hierachy_1() {
    let mut world = World::new();
    let mut commands = world.commands();
    let mut ids: Vec<Entity> = Vec::new();
    let root = commands.spawn_root(bx());
    ids.push(root.id());
    let c1 = root.with_child(&mut commands, bx());
    ids.push(c1.id());
    let c2 = c1.with_child(&mut commands, bx());
    ids.push(c2.id());
    let sub_root = c2.with_descendants();
    let d1 = sub_root.with_child(&mut commands, bx());
    ids.push(d1.id());
    let d2 = d1.with_child(&mut commands, bx());
    ids.push(d2.id());
    commands.flush(&mut world).unwrap();
    assert_eq!(world.entities().len(), 5);
    assert_eq!(ids.len(), 5);
    for (&parent, &child) in ids[..4].iter().zip(&ids[1..]) {
        println!("{:?}, {:?}", parent, child);
        assert_eq!(world.children_of(parent)[0], child);
    }
    for (&child, &parent) in ids[1..].iter().zip(&ids[..4]) {
        assert_eq!(world.parent_of(child).unwrap(), parent);
    }
}
