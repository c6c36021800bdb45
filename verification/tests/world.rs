use cgmath::{vec3, Vector3};
use reks::{QueryError, Read, World, Write};

const POS: u64 = 0;
const VEL: u64 = 1;
const TAG: u64 = 2;

fn two_movers() -> World<Vector3<f32>> {
    let mut world = World::new();
    world
        .create_entity()
        .with(POS, vec3(0.0, 0.0, 0.0))
        .with(VEL, vec3(1.0, 0.0, 0.0))
        .build();
    world
        .create_entity()
        .with(POS, vec3(1.0, 0.0, 0.0))
        .with(VEL, vec3(1.0, 0.0, 1.0))
        .build();
    world
}

#[test]
fn new_world_is_empty() {
    let world: World<u32> = World::new();
    assert!(world.entities().is_empty());
    assert_eq!(world.get_array(POS).err(), Some(QueryError::UnknownComponent));
    assert_eq!(world.borrow_state(POS), None);
}

#[test]
fn slots_are_array_lengths_before_insertion() {
    let mut world: World<u32> = World::new();
    world.create_entity().with(POS, 10).with(VEL, 20).build();
    world.create_entity().with(VEL, 21).build();
    world.create_entity().with(VEL, 22).with(POS, 11).with(TAG, 30).build();
    let expected: Vec<Vec<(u64, usize)>> = vec![
        vec![(POS, 0), (VEL, 0)],
        vec![(VEL, 1)],
        vec![(VEL, 2), (POS, 1), (TAG, 0)],
    ];
    assert_eq!(world.entities(), &expected);
    assert_eq!(world.get_array(POS).unwrap(), &vec![10, 11]);
    assert_eq!(world.get_array(VEL).unwrap(), &vec![20, 21, 22]);
    assert_eq!(world.get_array(TAG).unwrap(), &vec![30]);
}

#[test]
fn same_type_twice_keeps_both_pairs() {
    let mut world: World<u32> = World::new();
    world.create_entity().with(POS, 1).with(POS, 2).build();
    let expected: Vec<Vec<(u64, usize)>> = vec![vec![(POS, 0), (POS, 1)]];
    assert_eq!(world.entities(), &expected);
    assert_eq!(world.get_array(POS).unwrap(), &vec![1, 2]);
    let mut seen: Vec<u32> = Vec::new();
    world
        .execute::<(Read<POS>,), _>(|_w, r| seen.push(*r[0]))
        .unwrap();
    assert_eq!(seen, vec![1]);
}

#[test]
fn dropped_builder_leaves_components_but_no_entity() {
    let mut world: World<u32> = World::new();
    let _ = world.create_entity().with(POS, 7);
    assert!(world.entities().is_empty());
    assert_eq!(world.get_array(POS).unwrap(), &vec![7]);
    assert_eq!(world.borrow_state(POS), Some(0));
    let mut calls = 0;
    assert_eq!(world.execute::<(Read<POS>,), _>(|_w, _r| calls += 1), Ok(()));
    assert_eq!(calls, 0);
}

#[test]
fn integrate_velocity_over_two_entities() {
    let mut world = two_movers();
    let dt = 5.0;
    let res = world.execute::<(Write<POS>, Read<VEL>), _>(|mut w, r| {
        *w[0] += *r[0] * dt;
    });
    assert_eq!(res, Ok(()));
    assert_eq!(
        world.get_array(POS).unwrap(),
        &vec![vec3(5.0, 0.0, 0.0), vec3(6.0, 0.0, 5.0)]
    );
    assert_eq!(
        world.get_array(VEL).unwrap(),
        &vec![vec3(1.0, 0.0, 0.0), vec3(1.0, 0.0, 1.0)]
    );
}

#[test]
fn mutation_is_written_through() {
    let mut world: World<u32> = World::new();
    world.create_entity().with(POS, 1).build();
    world.create_entity().with(POS, 2).build();
    world
        .execute::<(Write<POS>,), _>(|mut w, _r| *w[0] += 100)
        .unwrap();
    assert_eq!(world.get_array(POS).unwrap(), &vec![101, 102]);
    let mut seen: Vec<u32> = Vec::new();
    world
        .execute::<(Read<POS>,), _>(|_w, r| seen.push(*r[0]))
        .unwrap();
    assert_eq!(seen, vec![101, 102]);
}

#[test]
fn callback_runs_once_per_entity_with_all_types() {
    let mut world: World<u32> = World::new();
    world.create_entity().with(POS, 1).with(VEL, 10).build();
    world.create_entity().with(POS, 2).build();
    world.create_entity().with(VEL, 30).with(TAG, 0).with(POS, 3).build();
    world.create_entity().with(VEL, 40).build();
    let mut seen: Vec<(u32, u32)> = Vec::new();
    let res = world.execute::<(Read<POS>, Read<VEL>), _>(|w, r| {
        assert!(w.is_empty());
        assert_eq!(r.len(), 2);
        seen.push((*r[0], *r[1]));
    });
    assert_eq!(res, Ok(()));
    assert_eq!(seen, vec![(1, 10), (3, 30)]);
}

#[test]
fn references_come_in_requirement_order() {
    let mut world: World<u32> = World::new();
    world.create_entity().with(POS, 1).with(VEL, 2).with(TAG, 3).build();
    let mut seen: Vec<(u32, u32, u32)> = Vec::new();
    world
        .execute::<(Read<TAG>, Write<VEL>, Read<POS>), _>(|w, r| {
            assert_eq!(w.len(), 1);
            seen.push((*r[0], *w[0], *r[1]));
        })
        .unwrap();
    assert_eq!(seen, vec![(3, 2, 1)]);
    let mut sums: Vec<u32> = Vec::new();
    world
        .execute::<(Write<TAG>, Write<POS>, Read<VEL>), _>(|mut w, r| {
            *w[0] += 10 * *r[0];
            *w[1] += 100 * *r[0];
            sums.push(*w[0] + *w[1]);
        })
        .unwrap();
    assert_eq!(sums, vec![224]);
    assert_eq!(world.get_array(TAG).unwrap(), &vec![23]);
    assert_eq!(world.get_array(POS).unwrap(), &vec![201]);
    assert_eq!(world.get_array(VEL).unwrap(), &vec![2]);
}

#[test]
fn mutable_and_shared_borrow_of_one_type_conflict() {
    let mut world = two_movers();
    let mut calls = 0;
    assert_eq!(
        world.execute::<(Write<POS>, Read<POS>), _>(|_w, _r| calls += 1),
        Err(QueryError::BorrowConflict)
    );
    assert_eq!(
        world.execute::<(Read<POS>, Write<POS>), _>(|_w, _r| calls += 1),
        Err(QueryError::BorrowConflict)
    );
    assert_eq!(
        world.execute::<(Write<POS>, Write<POS>), _>(|_w, _r| calls += 1),
        Err(QueryError::BorrowConflict)
    );
    assert_eq!(calls, 0);
    assert_eq!(
        world.get_array(POS).unwrap(),
        &vec![vec3(0.0, 0.0, 0.0), vec3(1.0, 0.0, 0.0)]
    );
}

#[test]
fn two_shared_borrows_of_one_type_are_granted() {
    let mut world: World<u32> = World::new();
    world.create_entity().with(POS, 4).build();
    world.create_entity().with(POS, 5).build();
    let mut seen: Vec<(u32, u32)> = Vec::new();
    let res = world.execute::<(Read<POS>, Read<POS>), _>(|_w, r| seen.push((*r[0], *r[1])));
    assert_eq!(res, Ok(()));
    assert_eq!(seen, vec![(4, 4), (5, 5)]);
    assert_eq!(world.borrow_state(POS), Some(2));
}

#[test]
fn query_for_a_type_never_inserted_is_unknown() {
    let mut world = two_movers();
    let mut calls = 0;
    assert_eq!(
        world.execute::<(Read<TAG>,), _>(|_w, _r| calls += 1),
        Err(QueryError::UnknownComponent)
    );
    assert_eq!(
        world.execute::<(Write<POS>, Read<TAG>), _>(|_w, _r| calls += 1),
        Err(QueryError::UnknownComponent)
    );
    assert_eq!(calls, 0);
    assert_eq!(world.borrow_state(POS), Some(-1));
    assert_eq!(world.borrow_state(TAG), None);
}

#[test]
fn query_on_an_empty_world_is_unknown() {
    let mut world: World<u32> = World::new();
    assert_eq!(
        world.execute::<(Read<POS>,), _>(|_w, _r| ()),
        Err(QueryError::UnknownComponent)
    );
}

#[test]
fn tracker_is_reset_by_the_next_query() {
    let mut world = two_movers();
    world.execute::<(Write<POS>, Read<VEL>), _>(|_w, _r| ()).unwrap();
    assert_eq!(world.borrow_state(POS), Some(-1));
    assert_eq!(world.borrow_state(VEL), Some(1));
    world.execute::<(Read<POS>, Read<POS>, Read<POS>), _>(|_w, _r| ()).unwrap();
    assert_eq!(world.borrow_state(POS), Some(3));
    assert_eq!(world.borrow_state(VEL), Some(0));
    world.execute::<(Write<VEL>,), _>(|_w, _r| ()).unwrap();
    assert_eq!(world.borrow_state(POS), Some(0));
    assert_eq!(world.borrow_state(VEL), Some(-1));
}

#[test]
fn traversal_order_is_registry_order_and_repeats() {
    let mut world: World<u32> = World::new();
    world.create_entity().with(POS, 3).build();
    world.create_entity().with(VEL, 9).build();
    world.create_entity().with(POS, 1).build();
    world.create_entity().with(POS, 2).with(VEL, 8).build();
    let mut first: Vec<u32> = Vec::new();
    world.execute::<(Read<POS>,), _>(|_w, r| first.push(*r[0])).unwrap();
    let mut second: Vec<u32> = Vec::new();
    world.execute::<(Read<POS>,), _>(|_w, r| second.push(*r[0])).unwrap();
    assert_eq!(first, vec![3, 1, 2]);
    assert_eq!(second, first);
}

#[test]
fn nested_tuples_flatten() {
    let mut world: World<u32> = World::new();
    world.create_entity().with(POS, 1).with(VEL, 2).with(TAG, 3).build();
    let mut seen: Vec<Vec<u32>> = Vec::new();
    world
        .execute::<((Read<POS>, Read<VEL>), (Read<TAG>,)), _>(|_w, r| {
            seen.push(r.iter().map(|x| **x).collect());
        })
        .unwrap();
    assert_eq!(seen, vec![vec![1, 2, 3]]);
}

#[test]
fn insert_returns_the_slot() {
    let mut world: World<u32> = World::new();
    assert_eq!(world.insert(POS, 5), 0);
    assert_eq!(world.insert(POS, 6), 1);
    assert_eq!(world.insert(VEL, 7), 0);
    assert_eq!(world.insert(POS, 8), 2);
    assert_eq!(world.get_array(POS).unwrap(), &vec![5, 6, 8]);
    assert_eq!(world.borrow_state(VEL), Some(0));
    assert!(world.entities().is_empty());
}
