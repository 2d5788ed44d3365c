use game_data::bridge::{
    EntityBimap, EntityEvent, EntityEvents, MergeRule, Syncer, World, ENTITY_EVENT_CAPACITY,
};
use game_data::game_data::{GameData, GameDataBuilder, MigrationState, SyncBundle};
use game_data::graph::{compile, BuildError, Bundle, CompiledGraph, Operation, Step};

fn state() -> MigrationState {
    MigrationState { world: World::new(), syncers: Vec::new(), entities: EntityBimap::new() }
}

fn build(b: GameDataBuilder) -> Result<GameData, BuildError> {
    let mut world = World::new();
    let mut st = state();
    b.build(&mut world, &mut st)
}

fn primary(g: &GameData) -> &CompiledGraph {
    g.dispatcher.as_ref().unwrap()
}

#[test]
fn chain_runs_in_dependency_order() {
    let g = build(
        GameDataBuilder::new()
            .with(1, "load", &[])
            .with(2, "physics", &["load"])
            .with(3, "render", &["physics"]),
    )
    .unwrap();
    let c = primary(&g);
    assert_eq!(c.nodes.len(), 3);
    assert_eq!(c.nodes[1].after, vec![0]);
    assert_eq!(c.nodes[2].after, vec![1]);
    for _ in 0..3 {
        let t = g.update().unwrap();
        assert_eq!(t.primary.units, vec![1, 2, 3]);
        assert_eq!(t.primary.waves, vec![0, 1, 2]);
        assert!(t.primary.thread_local.is_empty());
    }
}

#[test]
fn barrier_orders_later_units_after_earlier_ones() {
    let g = build(
        GameDataBuilder::new()
            .with(1, "a", &[])
            .with(2, "b", &[])
            .with_barrier()
            .with(3, "c", &[]),
    )
    .unwrap();
    let c = primary(&g);
    assert!(c.nodes[0].after.is_empty());
    assert!(c.nodes[1].after.is_empty());
    assert!(c.nodes[2].after.contains(&0));
    assert!(c.nodes[2].after.contains(&1));
    let t = g.update().unwrap();
    assert_eq!(t.primary.waves, vec![0, 0, 1]);
}

#[test]
fn duplicate_name_is_refused() {
    let r = build(GameDataBuilder::new().with(1, "a", &[]).with(2, "a", &[]));
    assert!(matches!(r, Err(BuildError::DuplicateName(ref n)) if n == "a"));
}

#[test]
fn duplicate_name_across_barrier_is_refused() {
    let r = build(
        GameDataBuilder::new()
            .with(1, "a", &[])
            .with_barrier()
            .with(2, "b", &[])
            .with_barrier()
            .with(3, "a", &["b"]),
    );
    assert!(matches!(r, Err(BuildError::DuplicateName(ref n)) if n == "a"));
}

#[test]
fn empty_names_may_repeat() {
    let g = build(GameDataBuilder::default().with(1, "", &[]).with(2, "", &[])).unwrap();
    assert_eq!(primary(&g).nodes.len(), 2);
}

#[test]
fn unknown_dependency_is_refused() {
    let r = build(GameDataBuilder::new().with(1, "a", &[]).with(2, "b", &["a", "x", "y"]));
    assert!(matches!(r, Err(BuildError::UnknownDependency(ref n)) if n == "x"));
}

#[test]
fn empty_name_is_not_a_dependency() {
    let r = build(GameDataBuilder::new().with(1, "", &[]).with(2, "b", &[""]));
    assert!(matches!(r, Err(BuildError::UnknownDependency(ref n)) if n.is_empty()));
}

#[test]
fn idle_barriers_change_nothing() {
    let plain = build(GameDataBuilder::new().with(1, "a", &[]).with(2, "b", &[])).unwrap();
    let barred = build(
        GameDataBuilder::new()
            .with_barrier()
            .with(1, "a", &[])
            .with_barrier()
            .with_barrier()
            .with(2, "b", &[])
            .with_barrier(),
    )
    .unwrap();
    let with_one = build(
        GameDataBuilder::new()
            .with(1, "a", &[])
            .with_barrier()
            .with(2, "b", &[]),
    )
    .unwrap();
    let p = primary(&plain);
    let q = primary(&barred);
    let w = primary(&with_one);
    assert_eq!(p.nodes.len(), 2);
    assert!(q.nodes[0].after.is_empty());
    assert_eq!(q.nodes[1].after, w.nodes[1].after);
    assert!(p.nodes[1].after.is_empty());
}

#[test]
fn thread_local_units_run_last_in_order() {
    let g = build(
        GameDataBuilder::new()
            .with_thread_local(10)
            .with(1, "a", &[])
            .with_barrier()
            .with_thread_local_desc(11)
            .with_system_desc(2, "b", &[]),
    )
    .unwrap();
    let t = g.update().unwrap();
    assert_eq!(t.primary.units, vec![1, 2]);
    assert_eq!(t.primary.thread_local, vec![10, 11]);
}

#[test]
fn thread_local_units_without_parallel_units() {
    let g = build(GameDataBuilder::new().with_thread_local(7).with_thread_local(8)).unwrap();
    let t = g.update().unwrap();
    assert!(t.primary.units.is_empty());
    assert_eq!(t.primary.thread_local, vec![7, 8]);
}

#[test]
fn bundle_steps_are_compiled_in_place() {
    let bundle = Bundle {
        steps: vec![
            Step::System { id: 2, name: "b".to_string(), dependencies: vec!["a".to_string()] },
            Step::Barrier,
            Step::ThreadLocal { id: 9 },
        ],
        failure: None,
    };
    let g = build(
        GameDataBuilder::new()
            .with(1, "a", &[])
            .with_bundle(bundle)
            .unwrap()
            .with(3, "c", &[]),
    )
    .unwrap();
    let c = primary(&g);
    assert_eq!(c.nodes.len(), 3);
    assert_eq!(c.nodes[1].after, vec![0]);
    assert_eq!(c.nodes[2].after, vec![0, 1]);
    assert_eq!(c.thread_local, vec![9]);
}

#[test]
fn failing_bundle_aborts_build() {
    let bundle = Bundle { steps: Vec::new(), failure: Some("no display".to_string()) };
    let r = build(GameDataBuilder::new().with_bundle(bundle).unwrap());
    assert!(matches!(r, Err(BuildError::BundleExpansionFailed(ref m)) if m == "no display"));
}

#[test]
fn compile_reports_first_failure() {
    let ops = vec![
        Operation::AddStep(Step::System {
            id: 1,
            name: "a".to_string(),
            dependencies: vec!["z".to_string()],
        }),
        Operation::AddStep(Step::System { id: 2, name: "a".to_string(), dependencies: Vec::new() }),
    ];
    let r = compile(ops);
    assert!(matches!(r, Err(BuildError::UnknownDependency(ref n)) if n == "z"));
}

#[test]
fn dispose_releases_each_unit_once() {
    let mut g = build(
        GameDataBuilder::new()
            .with(1, "a", &[])
            .with_thread_local(2)
            .migration_with_system(3, "s", &[])
            .migration_with_thread_local(4),
    )
    .unwrap();
    assert_eq!(g.dispose(), vec![1, 2, 3, 4]);
    assert!(g.dispose().is_empty());
    assert!(matches!(g.update(), Err(BuildError::PostDisposeUse)));
}

#[test]
fn resource_round_trip_keeps_value() {
    let mut world = World::new();
    world.insert_resource(5, 42);
    let mut st = state();
    let g = GameDataBuilder::new().migration_resource_sync(5).build(&mut world, &mut st).unwrap();
    assert_eq!(st.world.resource(5), Some(42));
    assert_eq!(world.resource(5), Some(42));
    assert_eq!(st.syncers.len(), 1);
    assert!(g.update().is_ok());
}

#[test]
fn missing_resource_fails_sync() {
    let mut world = World::new();
    let mut st = state();
    let r = GameDataBuilder::new().migration_resource_sync(5).build(&mut world, &mut st);
    assert!(matches!(r, Err(BuildError::SyncerSyncFailed(5))));
}

#[test]
fn component_sync_follows_entity_pairs() {
    let mut world = World::new();
    world.insert_component(7, 1, 9);
    world.insert_component(7, 2, 8);
    let mut st = state();
    st.entities.link(1, 100);
    let g = GameDataBuilder::new().migration_component_sync(7).build(&mut world, &mut st);
    assert!(g.is_ok());
    assert_eq!(st.world.component(7, 100), Some(9));
    assert_eq!(st.world.component(7, 2), None);
    assert_eq!(world.component(7, 1), Some(9));
}

#[test]
fn merge_rule_keeps_target_value() {
    let mut world = World::new();
    world.insert_component(7, 1, 9);
    let mut st = state();
    st.world.insert_component(7, 100, 3);
    st.entities.link(1, 100);
    let g = GameDataBuilder::new()
        .migration_component_sync_with(7, MergeRule::PreferTarget)
        .build(&mut world, &mut st);
    assert!(g.is_ok());
    assert_eq!(st.world.component(7, 100), Some(3));
    assert_eq!(world.component(7, 1), Some(9));
}

#[test]
fn sync_bundle_syncers_run_first() {
    let mut world = World::new();
    world.insert_resource(1, 10);
    world.insert_resource(2, 20);
    let mut st = state();
    let bundle = SyncBundle {
        syncers: vec![Syncer::Resource(2)],
        operations: vec![Operation::AddStep(Step::ThreadLocal { id: 5 })],
    };
    let g = GameDataBuilder::new()
        .migration_resource_sync(1)
        .migration_sync_bundle(bundle)
        .migration_with_thread_local(4)
        .build(&mut world, &mut st)
        .unwrap();
    assert_eq!(st.syncers.len(), 2);
    assert!(st.syncers[0] == Syncer::Resource(2));
    assert!(st.syncers[1] == Syncer::Resource(1));
    let t = g.update().unwrap();
    assert_eq!(t.secondary.thread_local, vec![4, 5]);
    assert_eq!(st.world.resource(2), Some(20));
}

#[test]
fn secondary_graph_validates_names() {
    let r = build(
        GameDataBuilder::new()
            .migration_with_system(1, "s", &[])
            .migration_with_system(2, "s", &[]),
    );
    assert!(matches!(r, Err(BuildError::DuplicateName(ref n)) if n == "s"));
}

#[test]
fn migration_bundle_is_compiled() {
    let bundle = Bundle { steps: vec![Step::ThreadLocal { id: 6 }], failure: None };
    let g = build(GameDataBuilder::new().migration_with_bundle(bundle)).unwrap();
    let t = g.update().unwrap();
    assert_eq!(t.secondary.thread_local, vec![6]);
}

#[test]
fn bimap_prunes_stale_pairs() {
    let mut m = EntityBimap::new();
    m.link(1, 100);
    m.link(2, 200);
    m.link(1, 300);
    assert_eq!(m.pairs, vec![(2, 200), (1, 300)]);
    m.remove_secondary(200);
    assert_eq!(m.pairs, vec![(1, 300)]);
    m.remove_primary(1);
    assert!(m.pairs.is_empty());
}

#[test]
fn waves_group_independent_units() {
    let g = build(
        GameDataBuilder::new()
            .with(1, "a", &[])
            .with(2, "b", &[])
            .with(3, "c", &["a"])
            .with_barrier()
            .with(4, "d", &[]),
    )
    .unwrap();
    let t = g.update().unwrap();
    assert_eq!(t.primary.waves, vec![0, 0, 1, 2]);
    assert_eq!(t.primary.wave(0), vec![1, 2]);
    assert_eq!(t.primary.wave(1), vec![3]);
    assert_eq!(t.primary.wave(2), vec![4]);
    assert!(t.primary.wave(3).is_empty());
}

#[test]
fn full_event_buffer_refuses_new_events() {
    let mut ev = EntityEvents::new();
    for i in 0..ENTITY_EVENT_CAPACITY {
        assert!(ev.push(EntityEvent::Linked(i as u64, i as u64 + 1000)).is_ok());
    }
    let r = ev.push(EntityEvent::PrimaryRemoved(1));
    assert!(r == Err(EntityEvent::PrimaryRemoved(1)));
    assert_eq!(ev.events.len(), 2048);
}

#[test]
fn events_drain_in_order() {
    let mut ev = EntityEvents::new();
    let mut m = EntityBimap::new();
    ev.push(EntityEvent::Linked(1, 10)).unwrap();
    ev.push(EntityEvent::Linked(2, 20)).unwrap();
    ev.push(EntityEvent::SecondaryRemoved(10)).unwrap();
    ev.push(EntityEvent::Linked(3, 20)).unwrap();
    ev.drain_into(&mut m);
    assert!(ev.events.is_empty());
    assert_eq!(m.pairs, vec![(3, 20)]);
}

#[test]
fn build_binds_an_empty_entity_listener() {
    let g = build(GameDataBuilder::new().with(1, "a", &[])).unwrap();
    assert!(g.migration_sync_entities.events.is_empty());
}

#[test]
fn failed_sync_leaves_bridge_unchanged() {
    let mut world = World::new();
    world.insert_resource(1, 10);
    let mut st = state();
    let r = GameDataBuilder::new()
        .migration_resource_sync(1)
        .migration_resource_sync(2)
        .build(&mut world, &mut st);
    assert!(matches!(r, Err(BuildError::SyncerSyncFailed(2))));
    assert!(st.syncers.is_empty());
    assert_eq!(st.world.resource(1), None);
    assert_eq!(world.resource(1), Some(10));
}

#[test]
fn failed_secondary_compile_leaves_worlds_unchanged() {
    let mut world = World::new();
    world.insert_resource(1, 10);
    let mut st = state();
    let r = GameDataBuilder::new()
        .migration_resource_sync(1)
        .migration_component_sync(3)
        .migration_with_system(1, "s", &["t"])
        .build(&mut world, &mut st);
    assert!(matches!(r, Err(BuildError::UnknownDependency(ref n)) if n == "t"));
    assert!(st.syncers.is_empty());
    assert_eq!(st.world.resource(1), None);
    assert!(!world.components.contains_key(&3));
}

#[test]
fn setup_registers_component_storage() {
    let mut world = World::new();
    let mut st = state();
    let r = GameDataBuilder::new().migration_component_sync(7).build(&mut world, &mut st);
    assert!(r.is_ok());
    assert!(world.components.contains_key(&7));
    assert_eq!(world.component(7, 1), None);
}
