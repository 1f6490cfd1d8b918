use legion_transform::components::local_to_parent::LocalToParent;
use legion_transform::components::local_to_world::LocalToWorld;
use legion_transform::components::matrix::Mat4;
use legion_transform::components::non_uniform_scale::NonUniformScale;
use legion_transform::components::parent::Parent;
use legion_transform::components::rotation::Rotation;
use legion_transform::components::scale::Scale;
use legion_transform::components::translation::Translation;
use legion_transform::local_to_parent_system::{self, Fixup};
use legion_transform::local_to_world_propagate_system::Propagator;
use legion_transform::local_to_world_system;
use legion_transform::world::World;
use legion_transform::{missing_previous_parent_system, parent_system, parent_update_system};

fn bits(m: &nalgebra::Matrix4<f32>) -> Vec<u32> {
    m.as_slice().iter().map(|x| x.to_bits()).collect()
}

fn to_na(m: &Mat4) -> nalgebra::Matrix4<f32> {
    nalgebra::Matrix4::from_iterator(m.m.iter().map(|x| f32::from_bits(*x)))
}

fn to_mat4(m: &nalgebra::Matrix4<f32>) -> Mat4 {
    Mat4 { m: bits(m) }
}

fn translation(x: f32, y: f32, z: f32) -> Translation {
    Translation::new(x.to_bits(), y.to_bits(), z.to_bits())
}

fn na_translation(t: &Translation) -> nalgebra::Translation3<f32> {
    nalgebra::Translation3::new(
        f32::from_bits(t.x),
        f32::from_bits(t.y),
        f32::from_bits(t.z),
    )
}

fn rotation_from_euler(roll: f32, pitch: f32, yaw: f32) -> Rotation {
    let r = nalgebra::Rotation3::from_euler_angles(roll, pitch, yaw);
    Rotation { m: r.matrix().as_slice().iter().map(|x| x.to_bits()).collect() }
}

fn na_rotation(r: &Rotation) -> nalgebra::Rotation3<f32> {
    let m = nalgebra::Matrix3::from_iterator(r.m.iter().map(|x| f32::from_bits(*x)));
    nalgebra::Rotation3::from_matrix_unchecked(m)
}

fn na_vector(x: u32, y: u32, z: u32) -> nalgebra::Vector3<f32> {
    nalgebra::Vector3::new(f32::from_bits(x), f32::from_bits(y), f32::from_bits(z))
}

/// The host side of the compose passes: finish one base matrix.
fn eval_fixup(base: &Mat4, fixup: &Fixup) -> Mat4 {
    let b = to_na(base);
    let r = match fixup {
        Fixup::Identity => b,
        Fixup::AppendTranslation(t) => b.append_translation(&na_vector(t.x, t.y, t.z)),
        Fixup::PrependScaling(s) => b.prepend_scaling(f32::from_bits(*s)),
        Fixup::PrependNonUniformScaling(n) => {
            b.prepend_nonuniform_scaling(&na_vector(n.x, n.y, n.z))
        }
        Fixup::AppendTranslationThenPrependScaling(t, s) => b
            .append_translation(&na_vector(t.x, t.y, t.z))
            .prepend_scaling(f32::from_bits(*s)),
        Fixup::AppendTranslationThenPrependNonUniformScaling(t, n) => b
            .append_translation(&na_vector(t.x, t.y, t.z))
            .prepend_nonuniform_scaling(&na_vector(n.x, n.y, n.z)),
    };
    to_mat4(&r)
}

fn compose_local_to_parent(world: &mut World) -> Vec<usize> {
    let (requests, conflicts) = local_to_parent_system::run(world);
    let results: Vec<(usize, Mat4)> = requests
        .iter()
        .map(|rq| (rq.entity, eval_fixup(&rq.base, &rq.fixup)))
        .collect();
    local_to_parent_system::apply_local_to_parent(world, results);
    conflicts
}

fn compose_local_to_world(world: &mut World) -> Vec<usize> {
    let (requests, conflicts) = local_to_world_system::run(world);
    let results: Vec<(usize, Mat4)> = requests
        .iter()
        .map(|rq| (rq.entity, eval_fixup(&rq.base, &rq.fixup)))
        .collect();
    local_to_world_system::apply_local_to_world(world, results);
    conflicts
}

/// The host side of the propagator: drive the walk, multiplying with
/// nalgebra.
fn propagate(world: &mut World) -> Vec<usize> {
    let mut p = Propagator::start(world);
    loop {
        match p.next(world) {
            None => break,
            Some(rq) => {
                let product = to_na(&rq.a) * to_na(&rq.b);
                p.supply(world, to_mat4(&product));
            }
        }
    }
    p.skipped()
}

fn run_cycle(world: &mut World) {
    missing_previous_parent_system::run(world);
    parent_update_system::run(world);
    parent_system::run(world);
    compose_local_to_parent(world);
    compose_local_to_world(world);
    propagate(world);
    world.clear_parent_changes();
}

fn ltp_bits(world: &World, e: usize) -> Vec<u32> {
    world.get_local_to_parent(e).unwrap().0.m
}

fn ltw_bits(world: &World, e: usize) -> Vec<u32> {
    world.get_local_to_world(e).unwrap().0.m
}

#[test]
fn correct_parent_transformation() {
    let mut world = World::new();

    let t = translation(1.0, 2.0, 3.0);
    let r = rotation_from_euler(1.0, 2.0, 3.0);
    let s = Scale(2.0f32.to_bits());
    let nus = NonUniformScale::new(1.0f32.to_bits(), 2.0f32.to_bits(), 3.0f32.to_bits());

    // Add every combination of transform types.
    let mut spawn = |world: &mut World| {
        let e = world.spawn();
        world.set_local_to_parent(e, LocalToParent::identity());
        e
    };
    let e_t = spawn(&mut world);
    world.set_translation(e_t, t);
    let e_r = spawn(&mut world);
    world.set_rotation(e_r, r.clone());
    let e_s = spawn(&mut world);
    world.set_scale(e_s, s);
    let e_n = spawn(&mut world);
    world.set_non_uniform_scale(e_n, nus);
    let e_tr = spawn(&mut world);
    world.set_translation(e_tr, t);
    world.set_rotation(e_tr, r.clone());
    let e_ts = spawn(&mut world);
    world.set_translation(e_ts, t);
    world.set_scale(e_ts, s);
    let e_tn = spawn(&mut world);
    world.set_translation(e_tn, t);
    world.set_non_uniform_scale(e_tn, nus);
    let e_rs = spawn(&mut world);
    world.set_rotation(e_rs, r.clone());
    world.set_scale(e_rs, s);
    let e_rn = spawn(&mut world);
    world.set_rotation(e_rn, r.clone());
    world.set_non_uniform_scale(e_rn, nus);
    let e_trs = spawn(&mut world);
    world.set_translation(e_trs, t);
    world.set_rotation(e_trs, r.clone());
    world.set_scale(e_trs, s);
    let e_trn = spawn(&mut world);
    world.set_translation(e_trn, t);
    world.set_rotation(e_trn, r.clone());
    world.set_non_uniform_scale(e_trn, nus);

    // Run the system
    let conflicts = compose_local_to_parent(&mut world);
    assert_eq!(conflicts, Vec::<usize>::new());

    // Verify that each was transformed correctly.
    let nt = na_translation(&t);
    let nr = na_rotation(&r);
    let sf = 2.0f32;
    let nv = na_vector(nus.x, nus.y, nus.z);

    assert_eq!(ltp_bits(&world, e_t), bits(&nt.to_homogeneous()));
    assert_eq!(ltp_bits(&world, e_r), bits(&nr.to_homogeneous()));
    assert_eq!(ltp_bits(&world, e_s), bits(&nalgebra::Matrix4::new_scaling(sf)));
    assert_eq!(ltp_bits(&world, e_n), bits(&nalgebra::Matrix4::new_nonuniform_scaling(&nv)));
    assert_eq!(
        ltp_bits(&world, e_tr),
        bits(&nr.to_homogeneous().append_translation(&nt.vector))
    );
    assert_eq!(
        ltp_bits(&world, e_ts),
        bits(&nt.to_homogeneous().prepend_scaling(sf))
    );
    assert_eq!(
        ltp_bits(&world, e_tn),
        bits(&nt.to_homogeneous().prepend_nonuniform_scaling(&nv))
    );
    assert_eq!(
        ltp_bits(&world, e_rs),
        bits(&nr.to_homogeneous().prepend_scaling(sf))
    );
    assert_eq!(
        ltp_bits(&world, e_rn),
        bits(&nr.to_homogeneous().prepend_nonuniform_scaling(&nv))
    );
    assert_eq!(
        ltp_bits(&world, e_trs),
        bits(&nr.to_homogeneous().append_translation(&nt.vector).prepend_scaling(sf))
    );
    assert_eq!(
        ltp_bits(&world, e_trn),
        bits(
            &nr.to_homogeneous()
                .append_translation(&nt.vector)
                .prepend_nonuniform_scaling(&nv)
        )
    );
}

#[test]
fn correct_world_transformation() {
    let mut world = World::new();

    let t = translation(1.0, 2.0, 3.0);
    let r = rotation_from_euler(1.0, 2.0, 3.0);
    let s = Scale(2.0f32.to_bits());
    let nus = NonUniformScale::new(1.0f32.to_bits(), 2.0f32.to_bits(), 3.0f32.to_bits());

    let mut spawn = |world: &mut World| {
        let e = world.spawn();
        world.set_local_to_world(e, LocalToWorld::identity());
        e
    };
    let e_t = spawn(&mut world);
    world.set_translation(e_t, t);
    let e_r = spawn(&mut world);
    world.set_rotation(e_r, r.clone());
    let e_s = spawn(&mut world);
    world.set_scale(e_s, s);
    let e_n = spawn(&mut world);
    world.set_non_uniform_scale(e_n, nus);
    let e_tr = spawn(&mut world);
    world.set_translation(e_tr, t);
    world.set_rotation(e_tr, r.clone());
    let e_ts = spawn(&mut world);
    world.set_translation(e_ts, t);
    world.set_scale(e_ts, s);
    let e_tn = spawn(&mut world);
    world.set_translation(e_tn, t);
    world.set_non_uniform_scale(e_tn, nus);
    let e_rs = spawn(&mut world);
    world.set_rotation(e_rs, r.clone());
    world.set_scale(e_rs, s);
    let e_rn = spawn(&mut world);
    world.set_rotation(e_rn, r.clone());
    world.set_non_uniform_scale(e_rn, nus);
    let e_trs = spawn(&mut world);
    world.set_translation(e_trs, t);
    world.set_rotation(e_trs, r.clone());
    world.set_scale(e_trs, s);
    let e_trn = spawn(&mut world);
    world.set_translation(e_trn, t);
    world.set_rotation(e_trn, r.clone());
    world.set_non_uniform_scale(e_trn, nus);

    let conflicts = compose_local_to_world(&mut world);
    assert_eq!(conflicts, Vec::<usize>::new());

    let nt = na_translation(&t);
    let nr = na_rotation(&r);
    let sf = 2.0f32;
    let nv = na_vector(nus.x, nus.y, nus.z);

    assert_eq!(ltw_bits(&world, e_t), bits(&nt.to_homogeneous()));
    assert_eq!(ltw_bits(&world, e_r), bits(&nr.to_homogeneous()));
    assert_eq!(ltw_bits(&world, e_s), bits(&nalgebra::Matrix4::new_scaling(sf)));
    assert_eq!(ltw_bits(&world, e_n), bits(&nalgebra::Matrix4::new_nonuniform_scaling(&nv)));
    assert_eq!(
        ltw_bits(&world, e_tr),
        bits(&nr.to_homogeneous().append_translation(&nt.vector))
    );
    assert_eq!(
        ltw_bits(&world, e_ts),
        bits(&nt.to_homogeneous().prepend_scaling(sf))
    );
    assert_eq!(
        ltw_bits(&world, e_tn),
        bits(&nt.to_homogeneous().prepend_nonuniform_scaling(&nv))
    );
    assert_eq!(
        ltw_bits(&world, e_rs),
        bits(&nr.to_homogeneous().prepend_scaling(sf))
    );
    assert_eq!(
        ltw_bits(&world, e_rn),
        bits(&nr.to_homogeneous().prepend_nonuniform_scaling(&nv))
    );
    assert_eq!(
        ltw_bits(&world, e_trs),
        bits(&nr.to_homogeneous().append_translation(&nt.vector).prepend_scaling(sf))
    );
    assert_eq!(
        ltw_bits(&world, e_trn),
        bits(
            &nr.to_homogeneous()
                .append_translation(&nt.vector)
                .prepend_nonuniform_scaling(&nv)
        )
    );

    // An entity with a parent link is not a root: its world matrix is left
    // for the propagator.
    let mut world2 = World::new();
    let root = world2.spawn();
    let child = world2.spawn();
    world2.set_local_to_world(child, LocalToWorld::identity());
    world2.set_translation(child, t);
    world2.set_parent(child, Parent(root));
    compose_local_to_world(&mut world2);
    assert_eq!(ltw_bits(&world2, child), LocalToWorld::identity().0.m);
}

#[test]
fn did_propagate() {
    let mut world = World::new();

    // Root entity
    let parent = world.spawn();
    world.set_translation(parent, translation(1.0, 0.0, 0.0));
    world.set_local_to_world(parent, LocalToWorld::identity());

    let e1 = world.spawn();
    world.set_translation(e1, translation(0.0, 2.0, 0.0));
    world.set_local_to_parent(e1, LocalToParent::identity());
    world.set_local_to_world(e1, LocalToWorld::identity());

    let e2 = world.spawn();
    world.set_translation(e2, translation(0.0, 0.0, 3.0));
    world.set_local_to_parent(e2, LocalToParent::identity());
    world.set_local_to_world(e2, LocalToWorld::identity());

    // Parent `e1` and `e2` to `parent`.
    world.set_parent(e1, Parent(parent));
    world.set_parent(e2, Parent(parent));

    // Run the needed systems on it.
    run_cycle(&mut world);

    assert_eq!(
        ltw_bits(&world, e1),
        bits(
            &(nalgebra::Translation3::new(1.0, 0.0, 0.0).to_homogeneous()
                * nalgebra::Translation3::new(0.0, 2.0, 0.0).to_homogeneous())
        )
    );
    assert_eq!(
        ltw_bits(&world, e2),
        bits(
            &(nalgebra::Translation3::new(1.0, 0.0, 0.0).to_homogeneous()
                * nalgebra::Translation3::new(0.0, 0.0, 3.0).to_homogeneous())
        )
    );
}

#[test]
fn single_child_world_matrix() {
    let mut world = World::new();

    let root = world.spawn();
    world.set_translation(root, translation(1.0, 0.0, 0.0));
    world.set_local_to_world(root, LocalToWorld::identity());

    let child = world.spawn();
    world.set_translation(child, translation(0.0, 2.0, 0.0));
    world.set_local_to_parent(child, LocalToParent::identity());
    world.set_local_to_world(child, LocalToWorld::identity());
    world.set_parent(child, Parent(root));

    run_cycle(&mut world);

    // translate(1,0,0) * translate(0,2,0) == translate(1,2,0)
    assert_eq!(
        ltw_bits(&world, child),
        bits(&nalgebra::Translation3::new(1.0, 2.0, 0.0).to_homogeneous())
    );
}

#[test]
fn propagate_is_idempotent() {
    let mut world = World::new();

    let root = world.spawn();
    world.set_translation(root, translation(1.5, -2.0, 0.25));
    world.set_local_to_world(root, LocalToWorld::identity());

    let mid = world.spawn();
    world.set_translation(mid, translation(0.5, 3.0, -1.0));
    world.set_rotation(mid, rotation_from_euler(0.3, 0.7, -0.2));
    world.set_local_to_parent(mid, LocalToParent::identity());
    world.set_local_to_world(mid, LocalToWorld::identity());
    world.set_parent(mid, Parent(root));

    let leaf = world.spawn();
    world.set_translation(leaf, translation(0.0, 0.0, 4.0));
    world.set_scale(leaf, Scale(0.5f32.to_bits()));
    world.set_local_to_parent(leaf, LocalToParent::identity());
    world.set_local_to_world(leaf, LocalToWorld::identity());
    world.set_parent(leaf, Parent(mid));

    run_cycle(&mut world);

    let first: Vec<Vec<u32>> = (0..3).map(|e| ltw_bits(&world, e)).collect();

    // Running the propagator again with no intervening field changes must
    // yield bit-identical world matrices.
    propagate(&mut world);

    let second: Vec<Vec<u32>> = (0..3).map(|e| ltw_bits(&world, e)).collect();
    assert_eq!(first, second);
}

#[test]
fn propagate_skips_dangling_children() {
    let mut world = World::new();

    let root = world.spawn();
    world.set_translation(root, translation(1.0, 0.0, 0.0));
    world.set_local_to_world(root, LocalToWorld::identity());

    let e1 = world.spawn();
    world.set_translation(e1, translation(0.0, 2.0, 0.0));
    world.set_local_to_parent(e1, LocalToParent::identity());
    world.set_local_to_world(e1, LocalToWorld::identity());
    world.set_parent(e1, Parent(root));

    let e2 = world.spawn();
    world.set_translation(e2, translation(0.0, 0.0, 3.0));
    world.set_local_to_parent(e2, LocalToParent::identity());
    world.set_local_to_world(e2, LocalToWorld::identity());
    world.set_parent(e2, Parent(root));

    run_cycle(&mut world);
    assert_eq!(world.get_children(root).unwrap(), vec![e1, e2]);

    // Delete `e1` without telling the maintainer: the children index still
    // holds the dangling reference.
    world.despawn(e1);
    assert_eq!(world.get_children(root).unwrap(), vec![e1, e2]);

    // The propagator must not fall over it: the edge is skipped and
    // reported, and the live sibling still propagates.
    let skipped = propagate(&mut world);
    assert_eq!(skipped, vec![e1]);
    assert_eq!(
        ltw_bits(&world, e2),
        bits(
            &(nalgebra::Translation3::new(1.0, 0.0, 0.0).to_homogeneous()
                * nalgebra::Translation3::new(0.0, 0.0, 3.0).to_homogeneous())
        )
    );
}

#[test]
fn conflicting_scales_reported_and_untouched() {
    let mut world = World::new();

    let e = world.spawn();
    world.set_local_to_parent(e, LocalToParent::identity());
    world.set_translation(e, translation(1.0, 2.0, 3.0));
    world.set_scale(e, Scale(2.0f32.to_bits()));
    world.set_non_uniform_scale(
        e,
        NonUniformScale::new(1.0f32.to_bits(), 2.0f32.to_bits(), 3.0f32.to_bits()),
    );

    let conflicts = compose_local_to_parent(&mut world);

    // The conflict is reported, and the matrix is deliberately left as it
    // was: the pinned deterministic choice for this contradictory input.
    assert_eq!(conflicts, vec![e]);
    assert_eq!(ltp_bits(&world, e), LocalToParent::identity().0.m);
}

#[test]
fn missing_local_to_parent_subtree_stale() {
    let mut world = World::new();

    let root = world.spawn();
    world.set_translation(root, translation(1.0, 0.0, 0.0));
    world.set_local_to_world(root, LocalToWorld::identity());

    // A child without LocalToParent: its subtree stays stale this cycle.
    let child = world.spawn();
    world.set_translation(child, translation(0.0, 2.0, 0.0));
    world.set_local_to_world(child, LocalToWorld::identity());
    world.set_parent(child, Parent(root));

    let grandchild = world.spawn();
    world.set_translation(grandchild, translation(0.0, 0.0, 3.0));
    world.set_local_to_parent(grandchild, LocalToParent::identity());
    world.set_local_to_world(grandchild, LocalToWorld::identity());
    world.set_parent(grandchild, Parent(child));

    missing_previous_parent_system::run(&mut world);
    parent_update_system::run(&mut world);
    parent_system::run(&mut world);
    compose_local_to_world(&mut world);
    let skipped = propagate(&mut world);

    assert_eq!(skipped, vec![child]);
    // The grandchild was never reached: its matrix is still the identity.
    assert_eq!(ltw_bits(&world, grandchild), LocalToWorld::identity().0.m);
}
