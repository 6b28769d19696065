use ecs_core::opaque::Opaque;
use ecs_core::pipeline::Pipeline;
use ecs_core::query::IterIterable;
use ecs_core::types::{ComponentDesc, EcsError, EventKind};
use ecs_core::world::World;

fn desc(key: u64, size: usize) -> ComponentDesc {
    ComponentDesc { type_key: key, size, align: 4 }
}

#[test]
fn lifecycle_alive_then_destroyed() {
    let mut w = World::new();
    let e = w.create();
    assert!(w.is_alive(e));
    assert_eq!(w.destroy(e), Ok(()));
    assert!(!w.is_alive(e));
    assert_eq!(w.destroy(e), Err(EcsError::StaleEntity));
}

#[test]
fn recycled_slot_invalidates_old_identifier() {
    let mut w = World::new();
    let e1 = w.create();
    w.destroy(e1).unwrap();
    let e2 = w.create();
    assert!(w.is_alive(e2));
    assert!(!w.is_alive(e1));
    assert_eq!(w.destroy(e1), Err(EcsError::StaleEntity));
}

#[test]
fn foreign_identifier_is_unknown() {
    let mut w1 = World::new();
    let _ = w1.create();
    let stranger = w1.create();
    let w2 = World::new();
    assert_eq!(w2.locate(stranger), Err(EcsError::UnknownEntity));
    assert_eq!(w2.get(stranger, 0), Err(EcsError::UnknownEntity));
}

#[test]
fn table_identity_ignores_order_and_duplicates() {
    let mut w = World::new();
    let a = w.register(desc(1, 4)).unwrap();
    let b = w.register(desc(2, 4)).unwrap();
    let t1 = w.find_or_create_table(&vec![a, b]).unwrap();
    let t2 = w.find_or_create_table(&vec![b, a]).unwrap();
    let t3 = w.find_or_create_table(&vec![a, b, a]).unwrap();
    assert_eq!(t1, t2);
    assert_eq!(t1, t3);
}

#[test]
fn unregistered_component_rejected() {
    let mut w = World::new();
    let e = w.create();
    assert_eq!(w.add(e, 7), Err(EcsError::InvalidParameter));
    assert_eq!(w.find_or_create_table(&vec![7]), Err(EcsError::InvalidParameter));
}

#[test]
fn add_remove_round_trip_restores_table() {
    let mut w = World::new();
    let a = w.register(desc(1, 4)).unwrap();
    let b = w.register(desc(2, 4)).unwrap();
    let e = w.create();
    w.add(e, a).unwrap();
    let (before_table, _) = w.locate(e).unwrap();
    w.add(e, b).unwrap();
    w.remove(e, b).unwrap();
    let (after_table, _) = w.locate(e).unwrap();
    assert_eq!(before_table, after_table);
    assert!(w.get(e, a).unwrap().is_some());
    assert!(w.get(e, b).unwrap().is_none());
}

#[test]
fn register_is_idempotent() {
    let mut w = World::new();
    let a1 = w.register(desc(10, 8)).unwrap();
    let tables_before = {
        let t = w.find_or_create_table(&vec![a1]).unwrap();
        t
    };
    let a2 = w.register(desc(10, 8)).unwrap();
    assert_eq!(a1, a2);
    let tables_after = w.find_or_create_table(&vec![a2]).unwrap();
    assert_eq!(tables_before, tables_after);
}

#[test]
fn register_conflict_detected() {
    let mut w = World::new();
    let _a = w.register(desc(10, 8)).unwrap();
    assert_eq!(w.register(desc(10, 16)), Err(EcsError::ComponentConflict));
}

#[test]
fn set_implies_add_and_stores_value() {
    let mut w = World::new();
    let a = w.register(desc(1, 4)).unwrap();
    let e = w.create();
    w.set_value(e, a, vec![9, 8, 7, 6]).unwrap();
    assert_eq!(w.get(e, a).unwrap(), Some(vec![9, 8, 7, 6]));
    w.set_value(e, a, vec![1, 1, 1, 1]).unwrap();
    assert_eq!(w.get(e, a).unwrap(), Some(vec![1, 1, 1, 1]));
}

#[test]
fn add_constructs_zeroed_value() {
    let mut w = World::new();
    let a = w.register(desc(1, 3)).unwrap();
    let e = w.create();
    w.add(e, a).unwrap();
    assert_eq!(w.get(e, a).unwrap(), Some(vec![0, 0, 0]));
}

#[test]
fn deferred_matches_eager_order() {
    // the same commands, once queued and replayed, once applied eagerly,
    // leave the entity in the same state
    let run = |deferred: bool| -> (Option<Vec<u8>>, Option<Vec<u8>>, Vec<EventKind>) {
        let mut w = World::new();
        let a = w.register(desc(1, 2)).unwrap();
        let b = w.register(desc(2, 2)).unwrap();
        w.register_observer(a, EventKind::OnAdd);
        w.register_observer(a, EventKind::OnRemove);
        w.register_observer(b, EventKind::OnAdd);
        w.register_observer(b, EventKind::OnSet);
        let e = w.create();
        if deferred {
            w.begin_defer();
        }
        w.add(e, a).unwrap();
        w.set_value(e, b, vec![4, 2]).unwrap();
        w.remove(e, a).unwrap();
        if deferred {
            w.end_defer().unwrap();
        }
        let kinds = w.drain_events().into_iter().map(|n| n.kind).collect();
        (w.get(e, a).unwrap(), w.get(e, b).unwrap(), kinds)
    };
    let eager = run(false);
    let queued = run(true);
    assert_eq!(eager, queued);
    assert_eq!(eager.0, None);
    assert_eq!(eager.1, Some(vec![4, 2]));
    assert_eq!(
        eager.2,
        vec![EventKind::OnAdd, EventKind::OnAdd, EventKind::OnSet, EventKind::OnRemove]
    );
}

#[test]
fn nested_defer_replays_only_at_outermost_end() {
    let mut w = World::new();
    let a = w.register(desc(1, 1)).unwrap();
    let e = w.create();
    w.begin_defer();
    w.begin_defer();
    w.add(e, a).unwrap();
    w.end_defer().unwrap();
    // still deferred: the add has not been applied
    assert_eq!(w.get(e, a).unwrap(), None);
    w.end_defer().unwrap();
    assert!(w.get(e, a).unwrap().is_some());
    assert_eq!(w.end_defer(), Err(EcsError::InvalidParameter));
}

#[test]
fn observer_ordering_on_set() {
    let mut w = World::new();
    let c = w.register(desc(5, 2)).unwrap();
    let o_add1 = w.register_observer(c, EventKind::OnAdd);
    let o_set1 = w.register_observer(c, EventKind::OnSet);
    let o_add2 = w.register_observer(c, EventKind::OnAdd);
    let e = w.create();
    w.set_value(e, c, vec![7, 7]).unwrap();
    let log = w.drain_events();
    // every OnAdd notification precedes every OnSet notification
    let kinds: Vec<EventKind> = log.iter().map(|n| n.kind).collect();
    assert_eq!(kinds, vec![EventKind::OnAdd, EventKind::OnAdd, EventKind::OnSet]);
    // observers fire in registration order within a kind
    assert_eq!(log[0].observer, o_add1);
    assert_eq!(log[1].observer, o_add2);
    assert_eq!(log[2].observer, o_set1);
    // the OnSet observer sees the assigned value; OnAdd sees the
    // zero-constructed storage
    assert_eq!(log[0].value, vec![0, 0]);
    assert_eq!(log[2].value, vec![7, 7]);
    assert!(w.drain_events().is_empty());
}

#[test]
fn query_matches_exactly_and_sees_new_tables() {
    let mut w = World::new();
    let a = w.register(desc(1, 1)).unwrap();
    let b = w.register(desc(2, 1)).unwrap();
    let c = w.register(desc(3, 1)).unwrap();
    let e_a = w.create();
    w.add(e_a, a).unwrap();
    let e_ab = w.create();
    w.add(e_ab, a).unwrap();
    w.add(e_ab, b).unwrap();
    let q = w.compile(&vec![a], &vec![b], 0).unwrap();
    let (t_a, _) = w.locate(e_a).unwrap();
    let (t_ab, _) = w.locate(e_ab).unwrap();
    let m = w.query_tables(q).unwrap();
    assert!(m.contains(&t_a));
    assert!(!m.contains(&t_ab));
    assert!(!m.contains(&0)); // the root table lacks `a`
    // a new table with {a, c} (no b) joins the match list on the next use
    let e_ac = w.create();
    w.add(e_ac, a).unwrap();
    w.add(e_ac, c).unwrap();
    let (t_ac, _) = w.locate(e_ac).unwrap();
    let m2 = w.query_tables(q).unwrap();
    assert!(m2.contains(&t_a));
    assert!(m2.contains(&t_ac));
    assert!(!m2.contains(&t_ab));
}

#[test]
fn query_compile_rejects_overlap() {
    let mut w = World::new();
    let a = w.register(desc(1, 1)).unwrap();
    assert_eq!(w.compile(&vec![a], &vec![a], 0), Err(EcsError::InvalidParameter));
    assert_eq!(w.compile(&vec![a, 9], &vec![], 0), Err(EcsError::InvalidParameter));
}

#[test]
fn grouped_iteration_restricts_to_one_group() {
    let mut w = World::new();
    let a = w.register(desc(1, 1)).unwrap();
    let b = w.register(desc(2, 1)).unwrap();
    let e1 = w.create();
    w.add(e1, a).unwrap();
    let e2 = w.create();
    w.add(e2, a).unwrap();
    w.add(e2, b).unwrap();
    let (t1, _) = w.locate(e1).unwrap();
    let (t2, _) = w.locate(e2).unwrap();
    w.set_table_group(t1, 10).unwrap();
    w.set_table_group(t2, 20).unwrap();
    let q = w.compile(&vec![a], &vec![], 0).unwrap();
    let m = w.query_tables(q).unwrap();
    let mut it = IterIterable::new(m, 0);
    it.set_group_id(20);
    let only = it.matched_tables(&w);
    assert_eq!(only, vec![t2]);
}

#[test]
fn variables_narrow_rows() {
    let mut w = World::new();
    let a = w.register(desc(1, 1)).unwrap();
    let e1 = w.create();
    w.add(e1, a).unwrap();
    let e2 = w.create();
    w.add(e2, a).unwrap();
    let (t, _) = w.locate(e1).unwrap();
    let q = w.compile(&vec![a], &vec![], 1).unwrap();
    let m = w.query_tables(q).unwrap();
    let mut it = IterIterable::new(m, 1);
    assert_eq!(it.set_var(-1, e1), Err(EcsError::InvalidVariable));
    assert_eq!(it.set_var(3, e1), Err(EcsError::InvalidVariable));
    let all_rows = it.rows(&w, t);
    assert_eq!(all_rows.len(), 2);
    it.set_var(0, e1).unwrap();
    let narrowed = it.rows(&w, t);
    assert_eq!(narrowed, vec![e1]);
}

#[test]
fn swap_compaction_keeps_other_entities_intact() {
    let mut w = World::new();
    let a = w.register(desc(1, 1)).unwrap();
    let e1 = w.create();
    let e2 = w.create();
    let e3 = w.create();
    w.set_value(e1, a, vec![1]).unwrap();
    w.set_value(e2, a, vec![2]).unwrap();
    w.set_value(e3, a, vec![3]).unwrap();
    // removing the first row swaps the last into the gap
    w.destroy(e1).unwrap();
    assert_eq!(w.get(e2, a).unwrap(), Some(vec![2]));
    assert_eq!(w.get(e3, a).unwrap(), Some(vec![3]));
    assert!(!w.is_alive(e1));
}

#[test]
fn named_entities_find_or_create() {
    let mut w = World::new();
    let e1 = w.create_named(77);
    let e2 = w.create_named(77);
    assert_eq!(e1, e2);
    let other = w.create_named(78);
    assert_ne!(e1, other);
    w.destroy(e1).unwrap();
    let e3 = w.create_named(77);
    assert!(w.is_alive(e3));
    assert_ne!(e1, e3);
}

#[test]
fn pacing_pads_short_frames() {
    let w = World::new();
    let mut p = Pipeline::new(&w, vec![None]).unwrap();
    p.set_target_fps(2000); // 2 Hz, in millihertz
    assert_eq!(p.period_nanos(), 500_000_000);
    let mut total: u64 = 0;
    for _ in 0..10 {
        let (delta, slept) = p.progress(0);
        assert_eq!(delta, 500_000_000);
        assert_eq!(slept, 500_000_000);
        total += delta;
    }
    // ten paced ticks at 2 Hz span at least five seconds
    assert!(total >= 5_000_000_000);
    // a frame already late is not padded
    let (delta, slept) = p.progress(700_000_000);
    assert_eq!(delta, 700_000_000);
    assert_eq!(slept, 0);
}

#[test]
fn pipeline_runs_every_system_once() {
    let mut w = World::new();
    let a = w.register(desc(1, 1)).unwrap();
    let q = w.compile(&vec![a], &vec![], 0).unwrap();
    let p = Pipeline::new(&w, vec![Some(q), None, Some(q)]).unwrap();
    assert_eq!(p.plan(), vec![0, 1, 2]);
    assert_eq!(
        Pipeline::new(&w, vec![Some(q + 1)]).map(|_| ()),
        Err(EcsError::InvalidParameter)
    );
}

#[test]
fn scenario_position_add_set_remove() {
    let mut w = World::new();
    let position = w.register(desc(100, 8)).unwrap();
    w.register_observer(position, EventKind::OnAdd);
    w.register_observer(position, EventKind::OnSet);
    w.register_observer(position, EventKind::OnRemove);
    let e = w.create();
    w.add(e, position).unwrap();
    let payload: Vec<u8> = vec![1, 0, 0, 0, 2, 0, 0, 0]; // {x: 1, y: 2}
    w.set_value(e, position, payload.clone()).unwrap();
    w.remove(e, position).unwrap();
    let log = w.drain_events();
    let kinds: Vec<EventKind> = log.iter().map(|n| n.kind).collect();
    assert_eq!(kinds, vec![EventKind::OnAdd, EventKind::OnSet, EventKind::OnRemove]);
    assert_eq!(log[1].value, payload);
    // the removed value is still intact when the observer runs
    assert_eq!(log[2].value, payload);
    assert_eq!(log[1].entity, e);
}

#[test]
fn opaque_descriptor_builder() {
    let mut w = World::new();
    let c = w.register(desc(42, 16)).unwrap();
    let mut o = Opaque::new(c);
    assert_eq!(o.component_id(), c);
    assert_eq!(o.type_entity(), 0);
    o.as_type(99);
    assert_eq!(o.component_id(), c);
    assert_eq!(o.type_entity(), 99);
}

#[test]
fn worlds_are_isolated() {
    let mut w1 = World::new();
    let mut w2 = World::new();
    let a1 = w1.register(desc(1, 4)).unwrap();
    let a2 = w2.register(desc(1, 4)).unwrap();
    assert_eq!(a1, a2); // dense ids start at zero in each world
    let e1 = w1.create();
    w1.set_value(e1, a1, vec![5, 5, 5, 5]).unwrap();
    // nothing in w2 changed
    assert_eq!(w2.component_count(), 1);
    let e2 = w2.create();
    assert_eq!(w2.get(e2, a2).unwrap(), None);
}
