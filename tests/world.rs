use ssim::components::ComponentSetId;
use ssim::query::{Query, SpatialPoint};
use ssim::systems::{DependencyType, SystemId, WorldSystemError};
use ssim::world::{EntityId, LocalWorld, World, WorldCommand};

struct SystemFn(for<'a> fn(LocalWorld<'a, SystemFn>) -> Result<(), WorldSystemError<SystemFn>>);

/// Runs batches until a unit queues `Stop`; returns the number of passes.
fn run(world: &mut World<SystemFn>) -> usize {
    let _ = world.resolve_system_tree();
    let mut passes = 0;
    loop {
        passes += 1;
        let batches: Vec<Vec<SystemId>> =
            world.system_tree().iter().map(|g| g.system_ids().clone()).collect();
        for batch in batches {
            for id in batch {
                let entry = world.system(id).map(|s| s.system_fn().0);
                if let Some(entry) = entry {
                    let _ = entry(LocalWorld::new(world, id));
                }
            }
        }
        if !world.finish_pass() {
            return passes;
        }
    }
}

fn hello_system(_: LocalWorld<SystemFn>) -> Result<(), WorldSystemError<SystemFn>> {
    Ok(())
}

fn goodbye_system(mut local_world: LocalWorld<SystemFn>) -> Result<(), WorldSystemError<SystemFn>> {
    local_world.queue_command(WorldCommand::Stop);
    Ok(())
}

#[test]
fn hello_world() {
    let mut world = World::new();

    let _ = world.add_system(SystemFn(hello_system));
    let _ = world.add_system(SystemFn(goodbye_system));
    assert_eq!(run(&mut world), 1);
}

fn entity_producer_system(mut local_world: LocalWorld<SystemFn>) -> Result<(), WorldSystemError<SystemFn>> {
    for i in 0..10 {
        let entity = local_world.spawn_entity().unwrap();
        if i % 3 == 0 {
            local_world.add_component::<f32>(entity);
            local_world.add_component::<bool>(entity);
        } else {
            local_world.add_component::<i32>(entity);
            local_world.add_component::<bool>(entity);
        }
    }
    Ok(())
}

fn component_query_system(mut local_world: LocalWorld<SystemFn>) -> Result<(), WorldSystemError<SystemFn>> {
    local_world.queue_command(WorldCommand::Stop);
    Ok(())
}

#[test]
fn queries() {
    let mut world = World::new();
    let _ = world.add_system(SystemFn(entity_producer_system));
    let _ = world.add_system(SystemFn(component_query_system));
    run(&mut world);

    let f = world.component_set_id::<f32>().unwrap();
    let i = world.component_set_id::<i32>().unwrap();
    let b = world.component_set_id::<bool>().unwrap();

    let query = Query::new().with(f).with(i).with(b).make();
    assert!(world.query_entities(&query).is_empty());

    let query = Query::new().with(f).with(b).make();
    let mut found = world.query_entities(&query);
    found.sort();
    assert_eq!(found, vec![0, 3, 6, 9]);

    let query = Query::new().with(b).not(f).make();
    assert_eq!(world.query_entities(&query).len(), 6);

    // the producer wrote f32, i32 and bool, so it now conflicts with itself only
    let producer = world.system(SystemId(0)).unwrap();
    assert_eq!(producer.writes().len(), 3);
}

#[test]
fn filters() {
    let mut world: World<SystemFn> = World::new();
    let a = world.component_set_id::<u8>().unwrap();
    let c_usize = world.component_set_id::<Option<usize>>().unwrap();
    let b = world.component_set_id::<u16>().unwrap();
    let c_a = world.component_set_id::<Option<u8>>().unwrap();
    let c_b = world.component_set_id::<Option<u16>>().unwrap();
    let c_c_b = world.component_set_id::<Option<Option<u16>>>().unwrap();
    let position = SpatialPoint { x: 1.0f64.to_bits(), y: 2.0f64.to_bits(), z: 3.0f64.to_bits() };

    let builder = Query::new()
        .with(a)
        .with(c_usize)
        .with(b)
        .not(c_a)
        .not(c_b)
        .with(c_c_b)
        .closer_than(10.0f64.to_bits(), position)
        .further_than(1.0f64.to_bits(), position)
        .sort_filters();

    let query = builder.make();
    assert_eq!(query.components(), &vec![a, c_usize, b, c_c_b]);
    assert_eq!(query.filters().len(), 4);
}

#[test]
fn resolving_twice_gives_the_same_batches() {
    let mut world: World<SystemFn> = World::new();
    for _ in 0..6 {
        world.add_system(SystemFn(hello_system)).ok().unwrap();
    }
    for k in 0..6 {
        world.mark_dependency(DependencyType::Write, SystemId(k), ComponentSetId(k % 2));
        world.mark_dependency(DependencyType::Read, SystemId(k), ComponentSetId(2 + k % 3));
    }
    let _ = world.resolve_system_tree();
    let first: Vec<Vec<SystemId>> = world.system_tree().iter().map(|g| g.system_ids().clone()).collect();
    let _ = world.resolve_system_tree();
    let second: Vec<Vec<SystemId>> = world.system_tree().iter().map(|g| g.system_ids().clone()).collect();
    assert_eq!(first, second);
    assert_eq!(first.len(), 3);
    assert_eq!(first.iter().map(|b| b.len()).sum::<usize>(), 6);
}

#[test]
fn promotion_marks_the_batches_stale() {
    let mut world: World<SystemFn> = World::new();
    let r = world.add_system(SystemFn(hello_system)).ok().unwrap();
    let w = world.add_system(SystemFn(hello_system)).ok().unwrap();
    assert!(world.tree_is_stale());
    world.mark_dependency(DependencyType::Read, r, ComponentSetId(7));
    let _ = world.resolve_system_tree();
    assert!(!world.tree_is_stale());
    assert_eq!(world.system_tree().len(), 1);
    assert!(world.check_mid_frame_dependency(DependencyType::Write, w, ComponentSetId(7)));
    assert!(world.mark_dependency(DependencyType::Write, w, ComponentSetId(7)));
    assert!(world.tree_is_stale());
    assert!(!world.check_mid_frame_dependency(DependencyType::Write, w, ComponentSetId(7)));
    assert!(!world.mark_dependency(DependencyType::Write, w, ComponentSetId(7)));
    assert!(!world.mark_dependency(DependencyType::Write, SystemId(99), ComponentSetId(7)));
    let _ = world.resolve_system_tree();
    assert_eq!(world.system_tree().len(), 2);
    let group = &world.system_tree()[0];
    assert_eq!(group.system_ids().len(), 1);
}

#[test]
fn batches_list_their_data_sets_once() {
    let mut world: World<SystemFn> = World::new();
    let a = world.add_system(SystemFn(hello_system)).ok().unwrap();
    let b = world.add_system(SystemFn(hello_system)).ok().unwrap();
    world.mark_dependency(DependencyType::Read, a, ComponentSetId(1));
    world.mark_dependency(DependencyType::Read, a, ComponentSetId(2));
    world.mark_dependency(DependencyType::Read, b, ComponentSetId(2));
    world.mark_dependency(DependencyType::Write, b, ComponentSetId(3));
    let _ = world.resolve_system_tree();
    assert_eq!(world.system_tree().len(), 1);
    let g = &world.system_tree()[0];
    assert_eq!(g.system_ids(), &vec![a, b]);
    assert_eq!(g.group_immutable(), &vec![ComponentSetId(1), ComponentSetId(2)]);
    assert_eq!(g.group_mutable(), &vec![ComponentSetId(3)]);
}

#[test]
fn commands_are_applied_in_order() {
    let mut world: World<SystemFn> = World::new();
    world.queue_command(WorldCommand::CreateEntity);
    world.queue_command(WorldCommand::CreateEntity);
    let e = EntityId::new(1, 0);
    world.queue_command(WorldCommand::AddComponentToEntity(ComponentSetId(4), e));
    world.queue_command(WorldCommand::Stop);
    let commands = world.take_commands();
    assert_eq!(commands.len(), 4);
    assert!(world.take_commands().is_empty());
    assert!(world.apply_command(commands[0]));
    assert!(world.apply_command(commands[1]));
    assert!(world.apply_command(commands[2]));
    assert!(world.has_component(ComponentSetId(4), e));
    assert!(!world.has_component(ComponentSetId(4), EntityId::new(0, 0)));
    assert!(world.apply_command(WorldCommand::RemoveComponentFromEntity(ComponentSetId(4), e)));
    assert!(!world.has_component(ComponentSetId(4), e));
    assert!(world.apply_command(WorldCommand::ResolveSystemTree));
    assert!(!world.apply_command(commands[3]));
}

#[test]
fn entity_ids_pack_index_and_generation() {
    let e = EntityId::new(5, 2);
    assert_eq!(e.index(), 5);
    assert_eq!(e.generation(), 2);
    assert_eq!(e.to_bits(), (2u64 << 32) | 5);
    let top = EntityId::new(0xFFFF_FFFF, 0xFFFF_FFFF);
    assert_eq!(top.index(), 0xFFFF_FFFF);
    assert_eq!(top.generation(), 0xFFFF_FFFF);
}

#[test]
fn entities_take_the_smallest_free_index() {
    let mut world: World<SystemFn> = World::new();
    let a = world.create_entity().unwrap();
    let b = world.create_entity().unwrap();
    assert_eq!(a.index(), 0);
    assert_eq!(b.index(), 1);
    assert_eq!(b.generation(), 0);
}

#[test]
fn system_ids_are_assigned_in_order() {
    let mut world: World<SystemFn> = World::new();
    let a = world.add_system(SystemFn(hello_system)).ok().unwrap();
    let b = world.add_system(SystemFn(goodbye_system)).ok().unwrap();
    assert_eq!(a, SystemId(0));
    assert_eq!(b.index(), 1);
    assert_eq!(world.system_count(), 2);
    assert_eq!(world.system(b).unwrap().id(), b);
    assert!(world.system(SystemId(5)).is_none());
}

#[test]
fn entity_iterator_yields_each_live_entity_once() {
    let mut world: World<SystemFn> = World::new();
    for _ in 0..3 {
        world.create_entity().unwrap();
    }
    let mut it = world.entity_ids();
    let mut seen = Vec::new();
    while let Some(e) = it.next() {
        seen.push(e.index());
    }
    assert_eq!(seen, vec![0, 1, 2]);
    assert_eq!(it.next(), None);
}

#[test]
fn finish_pass_resolves_stale_batches_and_stops_on_stop() {
    let mut world: World<SystemFn> = World::new();
    let a = world.add_system(SystemFn(hello_system)).ok().unwrap();
    world.queue_command(WorldCommand::CreateEntity);
    assert!(world.finish_pass());
    assert!(!world.tree_is_stale());
    assert_eq!(world.system_tree().len(), 1);
    assert_eq!(world.entity_ids().next().map(|e| e.index()), Some(0));
    world.mark_dependency(DependencyType::Write, a, ComponentSetId(1));
    world.queue_command(WorldCommand::Stop);
    world.queue_command(WorldCommand::CreateEntity);
    assert!(!world.finish_pass());
    assert!(world.take_commands().is_empty());
    assert_eq!(world.create_entity().map(|e| e.index()), Some(1));
}

#[test]
fn local_world_spawns_and_queues() {
    let mut world: World<SystemFn> = World::new();
    let id = world.add_system(SystemFn(hello_system)).ok().unwrap();
    {
        let mut lw = LocalWorld::new(&mut world, id);
        assert_eq!(lw.system_id(), id);
        assert_eq!(lw.spawn_entity().map(|e| e.index()), Some(0));
        assert_eq!(lw.spawn_entity().map(|e| e.index()), Some(1));
        let c = lw.add_component::<u64>(EntityId::new(0, 0)).unwrap();
        assert!(lw.mark_dependency(DependencyType::Read, ComponentSetId(9)));
        assert!(!lw.mark_dependency(DependencyType::Write, c));
        lw.queue_command(WorldCommand::Stop);
    }
    assert_eq!(world.take_commands().len(), 2);
    assert_eq!(world.system(id).unwrap().reads().len(), 1);
    assert!(world.tree_is_stale());
}
