use legion::prelude::{Entity, Universe};
use visible_entities::{
    update, visible_entities_system, CameraView, Draw, Drawable, OrderKey, Placement, UpdateError,
    VisibleEntities, VisibleEntity,
};

fn entities(count: usize) -> Vec<Entity> {
    let universe = Universe::new();
    let mut world = universe.create_world();
    let components: Vec<(usize,)> = (0..count).map(|i| (i,)).collect();
    world.insert((), components).to_vec()
}

fn key(value: f32) -> OrderKey {
    OrderKey::from_bits(value.to_bits())
}

fn value(key: &OrderKey) -> f32 {
    f32::from_bits(key.to_bits())
}

fn distance(camera: [f32; 3], point: [f32; 3]) -> OrderKey {
    let dx = camera[0] - point[0];
    let dy = camera[1] - point[1];
    let dz = camera[2] - point[2];
    key((dx * dx + dy * dy + dz * dz).sqrt())
}

fn synthetic_keys(count: usize) -> Vec<OrderKey> {
    let mut keys = Vec::new();
    let mut next = 0.0f32;
    for _ in 0..count {
        keys.push(key(next));
        next += 0.1;
    }
    keys
}

fn drawable(
    entity: Entity,
    is_visible: bool,
    is_transparent: bool,
    camera: [f32; 3],
    position: Option<[f32; 3]>,
) -> Drawable {
    Drawable {
        entity,
        draw: Draw { is_visible, is_transparent },
        placement: match position {
            Some(point) => Placement::Positioned(distance(camera, point)),
            None => Placement::Unpositioned,
        },
    }
}

fn listed(container: &VisibleEntities) -> Vec<(Entity, f32)> {
    container.iter().map(|e| (e.entity, value(&e.order))).collect()
}

const ORIGIN: [f32; 3] = [0.0, 0.0, 0.0];

#[test]
fn opaque_then_transparent_with_invisible_left_out() {
    let e = entities(4);
    let drawables = vec![
        drawable(e[0], true, false, ORIGIN, Some([1.0, 0.0, 0.0])),
        drawable(e[1], true, false, ORIGIN, Some([2.0, 0.0, 0.0])),
        drawable(e[2], true, true, ORIGIN, None),
        drawable(e[3], false, false, ORIGIN, Some([0.5, 0.0, 0.0])),
    ];
    let mut container = VisibleEntities::new();
    let result = update(&mut container, true, &drawables, &synthetic_keys(4));
    assert_eq!(result, Ok(()));
    assert_eq!(listed(&container), vec![(e[0], 1.0), (e[1], 2.0), (e[2], 0.0)]);
}

#[test]
fn transparent_entities_go_back_to_front() {
    let e = entities(2);
    let drawables = vec![
        drawable(e[0], true, true, ORIGIN, Some([3.0, 0.0, 0.0])),
        drawable(e[1], true, true, ORIGIN, Some([0.0, 5.0, 0.0])),
    ];
    let mut container = VisibleEntities::new();
    assert_eq!(update(&mut container, true, &drawables, &Vec::new()), Ok(()));
    assert_eq!(listed(&container), vec![(e[1], 5.0), (e[0], 3.0)]);
}

#[test]
fn opaque_entities_go_front_to_back() {
    let e = entities(3);
    let drawables = vec![
        drawable(e[0], true, false, ORIGIN, Some([0.0, 0.0, 7.0])),
        drawable(e[1], true, false, ORIGIN, Some([3.0, 4.0, 0.0])),
        drawable(e[2], true, false, ORIGIN, Some([0.0, 1.0, 0.0])),
    ];
    let mut container = VisibleEntities::new();
    assert_eq!(update(&mut container, true, &drawables, &Vec::new()), Ok(()));
    assert_eq!(listed(&container), vec![(e[2], 1.0), (e[1], 5.0), (e[0], 7.0)]);
}

#[test]
fn missing_camera_position_leaves_no_draw_order() {
    let e = entities(2);
    let drawables = vec![
        Drawable {
            entity: e[0],
            draw: Draw { is_visible: true, is_transparent: false },
            placement: Placement::Unpositioned,
        },
    ];
    let mut container = VisibleEntities { value: vec![VisibleEntity { entity: e[1], order: key(4.0) }] };
    let result = update(&mut container, false, &drawables, &synthetic_keys(1));
    assert_eq!(result, Err(UpdateError::MissingCameraPosition));
    assert_eq!(container.len(), 0);
}

#[test]
fn too_few_synthetic_keys_leave_no_draw_order() {
    let e = entities(3);
    let drawables = vec![
        drawable(e[0], true, false, ORIGIN, None),
        drawable(e[1], true, true, ORIGIN, None),
        drawable(e[2], true, false, ORIGIN, Some([1.0, 0.0, 0.0])),
    ];
    let mut container = VisibleEntities::new();
    let result = update(&mut container, true, &drawables, &synthetic_keys(1));
    assert_eq!(result, Err(UpdateError::SyntheticKeysExhausted));
    assert_eq!(container.len(), 0);
    assert_eq!(update(&mut container, true, &drawables, &synthetic_keys(2)), Ok(()));
    assert_eq!(container.len(), 3);
}

#[test]
fn invisible_unpositioned_drawables_take_no_synthetic_key() {
    let e = entities(3);
    let drawables = vec![
        drawable(e[0], false, false, ORIGIN, None),
        drawable(e[1], false, true, ORIGIN, None),
        drawable(e[2], true, false, ORIGIN, None),
    ];
    let mut container = VisibleEntities::new();
    assert_eq!(update(&mut container, true, &drawables, &synthetic_keys(1)), Ok(()));
    assert_eq!(listed(&container), vec![(e[2], 0.0)]);
}

#[test]
fn invisible_drawables_never_appear() {
    let e = entities(4);
    let drawables = vec![
        drawable(e[0], false, false, ORIGIN, Some([1.0, 0.0, 0.0])),
        drawable(e[1], false, true, ORIGIN, Some([1.0, 0.0, 0.0])),
        drawable(e[2], false, false, ORIGIN, None),
        drawable(e[3], false, true, ORIGIN, None),
    ];
    let mut container = VisibleEntities::new();
    assert_eq!(update(&mut container, true, &drawables, &synthetic_keys(4)), Ok(()));
    assert_eq!(container.len(), 0);
    assert!(container.iter().next().is_none());
}

#[test]
fn unpositioned_drawables_take_synthetic_keys_in_encounter_order() {
    let e = entities(4);
    let drawables = vec![
        drawable(e[0], true, false, ORIGIN, None),
        drawable(e[1], true, false, ORIGIN, None),
        drawable(e[2], false, false, ORIGIN, None),
        drawable(e[3], true, false, ORIGIN, None),
    ];
    let mut container = VisibleEntities::new();
    assert_eq!(update(&mut container, true, &drawables, &synthetic_keys(4)), Ok(()));
    let second = 0.0f32 + 0.1;
    let third = second + 0.1;
    assert_eq!(listed(&container), vec![(e[0], 0.0), (e[1], second), (e[3], third)]);
    assert_eq!(second, 0.1);
    assert_eq!(third, 0.2);
}

#[test]
fn synthetic_keys_are_shared_by_both_groups() {
    let e = entities(4);
    let drawables = vec![
        drawable(e[0], true, true, ORIGIN, None),
        drawable(e[1], true, false, ORIGIN, None),
        drawable(e[2], true, true, ORIGIN, None),
        drawable(e[3], true, false, ORIGIN, Some([0.05, 0.0, 0.0])),
    ];
    let mut container = VisibleEntities::new();
    assert_eq!(update(&mut container, true, &drawables, &synthetic_keys(3)), Ok(()));
    assert_eq!(
        listed(&container),
        vec![(e[3], 0.05), (e[1], 0.1), (e[2], 0.2), (e[0], 0.0)]
    );
}

#[test]
fn equal_keys_keep_encounter_order() {
    let e = entities(6);
    let drawables = vec![
        drawable(e[0], true, false, ORIGIN, Some([2.0, 0.0, 0.0])),
        drawable(e[1], true, true, ORIGIN, Some([0.0, 2.0, 0.0])),
        drawable(e[2], true, false, ORIGIN, Some([0.0, 0.0, 2.0])),
        drawable(e[3], true, true, ORIGIN, Some([0.0, 0.0, -2.0])),
        drawable(e[4], true, false, ORIGIN, Some([1.0, 0.0, 0.0])),
        drawable(e[5], true, true, ORIGIN, Some([9.0, 0.0, 0.0])),
    ];
    let mut container = VisibleEntities::new();
    assert_eq!(update(&mut container, true, &drawables, &Vec::new()), Ok(()));
    assert_eq!(
        listed(&container),
        vec![(e[4], 1.0), (e[0], 2.0), (e[2], 2.0), (e[5], 9.0), (e[1], 2.0), (e[3], 2.0)]
    );
}

#[test]
fn update_replaces_prior_contents_and_is_idempotent() {
    let e = entities(3);
    let drawables = vec![
        drawable(e[0], true, true, ORIGIN, Some([1.0, 0.0, 0.0])),
        drawable(e[1], true, false, ORIGIN, Some([4.0, 0.0, 0.0])),
        drawable(e[2], true, false, ORIGIN, None),
    ];
    let synthetic = synthetic_keys(3);
    let mut container = VisibleEntities { value: vec![VisibleEntity { entity: e[0], order: key(8.0) }] };
    assert_eq!(update(&mut container, true, &drawables, &synthetic), Ok(()));
    let first = listed(&container);
    assert_eq!(first, vec![(e[2], 0.0), (e[1], 4.0), (e[0], 1.0)]);
    assert_eq!(update(&mut container, true, &drawables, &synthetic), Ok(()));
    assert_eq!(listed(&container), first);
}

#[test]
fn each_camera_orders_by_its_own_distances() {
    let e = entities(2);
    let near = [0.0, 0.0, 0.0];
    let far = [10.0, 0.0, 0.0];
    let seen_from = |camera: [f32; 3]| {
        vec![
            drawable(e[0], true, false, camera, Some([1.0, 0.0, 0.0])),
            drawable(e[1], true, false, camera, Some([8.0, 0.0, 0.0])),
        ]
    };
    let mut cameras = vec![
        CameraView { position_resolved: true, drawables: seen_from(near), visible_entities: VisibleEntities::new() },
        CameraView { position_resolved: true, drawables: seen_from(far), visible_entities: VisibleEntities::new() },
    ];
    assert_eq!(visible_entities_system(&mut cameras, &Vec::new()), Ok(()));
    assert_eq!(listed(&cameras[0].visible_entities), vec![(e[0], 1.0), (e[1], 8.0)]);
    assert_eq!(listed(&cameras[1].visible_entities), vec![(e[1], 2.0), (e[0], 9.0)]);

    let mut alone = VisibleEntities::new();
    assert_eq!(update(&mut alone, true, &seen_from(far), &Vec::new()), Ok(()));
    assert_eq!(listed(&alone), listed(&cameras[1].visible_entities));
    assert_eq!(listed(&cameras[0].visible_entities), vec![(e[0], 1.0), (e[1], 8.0)]);
}

#[test]
fn system_names_the_first_camera_that_failed_and_updates_the_rest() {
    let e = entities(2);
    let stale = || VisibleEntities { value: vec![VisibleEntity { entity: e[1], order: key(6.0) }] };
    let seen = || vec![drawable(e[0], true, false, ORIGIN, None)];
    let mut cameras = vec![
        CameraView { position_resolved: true, drawables: seen(), visible_entities: stale() },
        CameraView { position_resolved: false, drawables: seen(), visible_entities: stale() },
        CameraView { position_resolved: true, drawables: seen(), visible_entities: stale() },
        CameraView { position_resolved: false, drawables: seen(), visible_entities: stale() },
    ];
    let result = visible_entities_system(&mut cameras, &synthetic_keys(1));
    assert_eq!(result, Err((1, UpdateError::MissingCameraPosition)));
    assert_eq!(listed(&cameras[0].visible_entities), vec![(e[0], 0.0)]);
    assert_eq!(cameras[1].visible_entities.len(), 0);
    assert_eq!(listed(&cameras[2].visible_entities), vec![(e[0], 0.0)]);
    assert_eq!(cameras[3].visible_entities.len(), 0);
    assert_eq!(cameras[1].drawables.len(), 1);

    let mut short = vec![
        CameraView { position_resolved: true, drawables: seen(), visible_entities: stale() },
    ];
    assert_eq!(
        visible_entities_system(&mut short, &Vec::new()),
        Err((0, UpdateError::SyntheticKeysExhausted))
    );
    let mut none: Vec<CameraView> = Vec::new();
    assert_eq!(visible_entities_system(&mut none, &Vec::new()), Ok(()));
}

#[test]
fn undefined_keys_sort_after_every_defined_key() {
    let e = entities(6);
    let with_key = |entity: Entity, is_transparent: bool, order: f32| Drawable {
        entity,
        draw: Draw { is_visible: true, is_transparent },
        placement: Placement::Positioned(key(order)),
    };
    let drawables = vec![
        with_key(e[0], false, f32::NAN),
        with_key(e[1], false, f32::INFINITY),
        with_key(e[2], false, 1.5),
        with_key(e[3], true, 1.5),
        with_key(e[4], true, f32::NAN),
        with_key(e[5], true, f32::INFINITY),
    ];
    let mut container = VisibleEntities::new();
    assert_eq!(update(&mut container, true, &drawables, &Vec::new()), Ok(()));
    let order: Vec<Entity> = container.iter().map(|entry| entry.entity).collect();
    assert_eq!(order, vec![e[2], e[1], e[0], e[4], e[5], e[3]]);
}

#[test]
fn iter_walks_the_draw_order_from_either_end() {
    let e = entities(3);
    let drawables = vec![
        drawable(e[0], true, false, ORIGIN, Some([3.0, 0.0, 0.0])),
        drawable(e[1], true, false, ORIGIN, Some([1.0, 0.0, 0.0])),
        drawable(e[2], true, false, ORIGIN, Some([2.0, 0.0, 0.0])),
    ];
    let mut container = VisibleEntities::default();
    assert_eq!(container.len(), 0);
    assert_eq!(update(&mut container, true, &drawables, &Vec::new()), Ok(()));
    let forward: Vec<Entity> = container.iter().map(|entry| entry.entity).collect();
    let backward: Vec<Entity> = container.iter().rev().map(|entry| entry.entity).collect();
    assert_eq!(forward, vec![e[1], e[2], e[0]]);
    assert_eq!(backward, vec![e[0], e[2], e[1]]);
    assert_eq!(container.value.len(), 3);
}

#[test]
fn large_scene_matches_a_stable_sort_of_each_group() {
    let count = 257;
    let e = entities(count);
    let distances = [0.0f32, 0.25, 0.25, 1.0, 3.5, 3.5, 3.5, 12.0, 100.0, f32::INFINITY, f32::NAN];
    let synthetic = synthetic_keys(count);
    let mut state: u32 = 12345;
    let mut drawables = Vec::new();
    for entity in e.iter() {
        state = state.wrapping_mul(1664525).wrapping_add(1013904223);
        let pick = (state >> 8) as usize;
        let placement = if pick % 5 == 0 {
            Placement::Unpositioned
        } else {
            Placement::Positioned(key(distances[(pick / 5) % distances.len()]))
        };
        drawables.push(Drawable {
            entity: *entity,
            draw: Draw { is_visible: (pick / 64) % 4 != 0, is_transparent: (pick / 256) % 2 == 0 },
            placement,
        });
    }

    let mut opaque: Vec<(Entity, OrderKey)> = Vec::new();
    let mut transparent: Vec<(Entity, OrderKey)> = Vec::new();
    let mut taken = 0;
    for d in drawables.iter() {
        if !d.draw.is_visible {
            continue;
        }
        let order = match d.placement {
            Placement::Positioned(distance) => distance,
            Placement::Unpositioned => {
                taken += 1;
                synthetic[taken - 1]
            }
        };
        if d.draw.is_transparent {
            transparent.push((d.entity, order));
        } else {
            opaque.push((d.entity, order));
        }
    }
    assert!(opaque.len() > 30 && transparent.len() > 30 && taken > 10);
    opaque.sort_by_key(|entry| entry.1.rank_value());
    transparent.sort_by_key(|entry| -entry.1.rank_value());
    opaque.extend(transparent);

    let mut container = VisibleEntities::new();
    assert_eq!(update(&mut container, true, &drawables, &synthetic), Ok(()));
    let got: Vec<(Entity, OrderKey)> = container.iter().map(|entry| (entry.entity, entry.order)).collect();
    assert_eq!(got, opaque);
}
