use legion_transform::components::parent::{Parent, PreviousParent};
use legion_transform::components::local_to_parent::LocalToParent;
use legion_transform::components::local_to_world::LocalToWorld;
use legion_transform::components::translation::Translation;
use legion_transform::transform_system::{TransformSystemBundle, WorldMutation};
use legion_transform::transform_system_bundle::Pass;
use legion_transform::world::World;
use legion_transform::{
    local_to_parent_system, local_to_world_propagate_system, local_to_world_system,
    missing_previous_parent_system, parent_system, parent_update_system, transform_system_bundle,
};

fn maintain(world: &mut World) {
    missing_previous_parent_system::run(world);
    parent_update_system::run(world);
}

#[test]
fn previous_parent_added() {
    let mut world = World::new();

    let e1 = world.spawn();
    world.set_translation(e1, Translation::identity());
    world.set_local_to_parent(e1, LocalToParent::identity());
    world.set_local_to_world(e1, LocalToWorld::identity());

    let e2 = world.spawn();
    world.set_translation(e2, Translation::identity());
    world.set_local_to_parent(e2, LocalToParent::identity());
    world.set_local_to_world(e2, LocalToWorld::identity());
    world.set_parent(e2, Parent(e1));

    missing_previous_parent_system::run(&mut world);

    assert_eq!(world.get_previous_parent(e1).is_some(), false);
    assert_eq!(world.get_previous_parent(e2).is_some(), true);
    assert_eq!(world.get_previous_parent(e2), Some(PreviousParent(None)));
}

#[test]
fn parent_system_correct_children() {
    let mut world = World::new();

    // Add 3 entities
    let parent = world.spawn();
    let e1 = world.spawn();
    let e2 = world.spawn();
    world.set_translation(parent, Translation::identity());
    world.set_translation(e1, Translation::identity());
    world.set_translation(e2, Translation::identity());

    // Parent `e1` and `e2` to `parent`.
    world.set_parent(e1, Parent(parent));
    world.set_parent(e2, Parent(parent));

    // Run the system on it
    maintain(&mut world);

    assert_eq!(world.get_children(parent).unwrap(), vec![e1, e2]);

    // Parent `e1` to `e2`.
    world.set_parent(e1, Parent(e2));

    // Run the system on it
    maintain(&mut world);
    parent_system::run(&mut world);

    assert_eq!(world.get_children(parent).unwrap(), vec![e2]);
    assert_eq!(world.get_children(e2).unwrap(), vec![e1]);

    world.despawn(e1);

    // Run the system on it
    maintain(&mut world);
    parent_system::run(&mut world);

    assert_eq!(world.get_children(parent).unwrap(), vec![e2]);
}

#[test]
fn parent_system_depth_test() {
    let mut world = World::new();

    // Add 3 entities
    let parent = world.spawn();
    let e1 = world.spawn();
    let e2 = world.spawn();
    world.set_translation(parent, Translation::identity());
    world.set_translation(e1, Translation::identity());
    world.set_translation(e2, Translation::identity());

    // Parent `e1` and `e2` to `parent`.
    world.set_parent(e1, Parent(parent));
    world.set_parent(e2, Parent(parent));

    // Run the systems on it
    maintain(&mut world);
    parent_system::run(&mut world);

    // Both should be at a depth of 1.
    assert_eq!(world.get_depth_tag(e1), Some(1));
    assert_eq!(world.get_depth_tag(e2), Some(1));

    // Re-parent `e2` to `e1`.
    world.set_parent(e2, Parent(e1));

    // Run the systems on it
    maintain(&mut world);
    parent_system::run(&mut world);

    assert_eq!(world.get_depth_tag(e1), Some(1));
    assert_eq!(world.get_depth_tag(e2), Some(2));
}

#[test]
fn transform_system_correct_children() {
    let mut world = World::new();
    let mut bundle = TransformSystemBundle::default();
    let passes = bundle.build();
    assert_eq!(passes, vec![Pass::ParentUpdate, Pass::AssignDepths]);

    let parent = world.spawn();
    let e1 = world.spawn();
    let e2 = world.spawn();
    world.set_translation(parent, Translation::identity());
    world.set_translation(e1, Translation::identity());
    world.set_translation(e2, Translation::identity());

    world.set_parent(e1, Parent(parent));
    world.set_parent(e2, Parent(parent));

    maintain(&mut world);

    assert_eq!(world.get_children(parent).unwrap(), vec![e1, e2]);

    world.set_parent(e1, Parent(e2));

    maintain(&mut world);

    assert_eq!(world.get_children(parent).unwrap(), vec![e2]);
    assert_eq!(world.get_children(e2).unwrap(), vec![e1]);

    world.despawn(e1);

    maintain(&mut world);

    assert_eq!(world.get_children(parent).unwrap(), vec![e2]);
}

#[test]
fn transform_system_depth_test() {
    let mut world = World::new();

    let parent = world.spawn();
    let e1 = world.spawn();
    let e2 = world.spawn();
    world.set_translation(parent, Translation::identity());
    world.set_translation(e1, Translation::identity());
    world.set_translation(e2, Translation::identity());

    world.set_parent(e1, Parent(parent));
    world.set_parent(e2, Parent(parent));

    maintain(&mut world);
    TransformSystemBundle::set_depths_system(&mut world);

    // Both should be at a depth of 1.
    assert_eq!(world.get_depth_tag(e1), Some(1));
    assert_eq!(world.get_depth_tag(e2), Some(1));

    // Re-parent `e2` to `e1`.
    world.set_parent(e2, Parent(e1));

    maintain(&mut world);
    TransformSystemBundle::set_depths_system(&mut world);

    assert_eq!(world.get_depth_tag(e1), Some(1));
    assert_eq!(world.get_depth_tag(e2), Some(2));
}

#[test]
fn depth_values_follow_tags() {
    let mut world = World::new();
    let parent = world.spawn();
    let e1 = world.spawn();
    let e2 = world.spawn();
    world.set_parent(e1, Parent(parent));
    world.set_parent(e2, Parent(e1));

    maintain(&mut world);
    parent_system::run(&mut world);

    assert_eq!(world.get_depth(e1), 1);
    assert_eq!(world.get_depth(e2), 2);
    assert_eq!(world.get_depth(parent), 0);
    assert_eq!(world.get_depth_tag(parent), None);
}

#[test]
fn schedule_order() {
    let passes = transform_system_bundle::build();
    assert_eq!(
        passes,
        vec![
            Pass::MissingPreviousParent,
            Pass::ParentUpdate,
            Pass::AssignDepths,
            Pass::LocalToParent,
            Pass::LocalToWorld,
            Pass::Propagate,
        ]
    );
    assert_eq!(missing_previous_parent_system::build(), Pass::MissingPreviousParent);
    assert_eq!(parent_update_system::build(), Pass::ParentUpdate);
    assert_eq!(parent_system::build_depth_pass(), Pass::AssignDepths);
    assert_eq!(local_to_parent_system::build(), Pass::LocalToParent);
    assert_eq!(local_to_world_system::build(), Pass::LocalToWorld);
    assert_eq!(local_to_world_propagate_system::build(), Pass::Propagate);
}

#[test]
fn world_mutation_apply() {
    let mut world = World::new();
    let parent = world.spawn();
    let e1 = world.spawn();
    let e2 = world.spawn();

    // Adding to a parent without a collection creates one.
    WorldMutation::AddEntityToParentChildren(e1, parent).apply(&mut world);
    assert_eq!(world.get_children(parent).unwrap(), vec![e1]);

    // Adding again appends.
    WorldMutation::AddEntityToParentChildren(e2, parent).apply(&mut world);
    assert_eq!(world.get_children(parent).unwrap(), vec![e1, e2]);

    // Removing filters the child out, keeping the order.
    WorldMutation::RemoveEntityFromParentChildren(e1, parent).apply(&mut world);
    assert_eq!(world.get_children(parent).unwrap(), vec![e2]);

    // Removing an absent child is a no-op.
    WorldMutation::RemoveEntityFromParentChildren(e1, parent).apply(&mut world);
    assert_eq!(world.get_children(parent).unwrap(), vec![e2]);
}

#[test]
fn maintainer_records_previous_parent() {
    let mut world = World::new();
    let p1 = world.spawn();
    let p2 = world.spawn();
    let child = world.spawn();

    world.set_parent(child, Parent(p1));
    maintain(&mut world);
    assert_eq!(world.get_previous_parent(child), Some(PreviousParent(Some(p1))));

    world.set_parent(child, Parent(p2));
    maintain(&mut world);
    assert_eq!(world.get_previous_parent(child), Some(PreviousParent(Some(p2))));
    assert_eq!(world.get_children(p1).unwrap(), Vec::<usize>::new());
    assert_eq!(world.get_children(p2).unwrap(), vec![child]);
}

#[test]
fn reparent_same_parent_is_noop() {
    let mut world = World::new();
    let parent = world.spawn();
    let e1 = world.spawn();
    world.set_parent(e1, Parent(parent));
    maintain(&mut world);
    assert_eq!(world.get_children(parent).unwrap(), vec![e1]);

    // Setting the same parent again must not duplicate the child.
    world.set_parent(e1, Parent(parent));
    maintain(&mut world);
    assert_eq!(world.get_children(parent).unwrap(), vec![e1]);
}
