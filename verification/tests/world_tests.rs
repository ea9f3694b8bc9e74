use trecs::component::{CompCell, CompValue};
use trecs::fetch::FetchRequest;
use trecs::storage::{ALIVE_TAG, CHUNK_SIZE};
use trecs::world::World;

const INT: u64 = 1;

fn int_rec(v: i64) -> Vec<CompCell> {
    vec![CompCell::of_int(INT, v)]
}

fn spawn_int(world: &mut World, v: i64) -> trecs::storage::Entity {
    world.spawn(INT, vec![INT], int_rec(v))
}

#[test]
fn command() {
    let mut world = World::new();

    // make one record, then remove it
    let entity = spawn_int(&mut world, 12345);
    world.remove(entity);

    // a fresh insertion does not overwrite the cleared slot at once
    assert_eq!(spawn_int(&mut world, 114514).generator, ALIVE_TAG);

    // CHUNK_SIZE - 1 more records fill the first segment exactly;
    // the last one reuses the cleared slot
    let recs: Vec<Vec<CompCell>> = (1..CHUNK_SIZE as i64).map(int_rec).collect();
    let last = *world.spawn_many(INT, vec![INT], recs).last().unwrap();

    // same slot index, one generation later
    assert_eq!(entity.index, last.index);
    assert_eq!(entity.generator, last.generator - 1);

    // still a single segment
    assert_eq!(world.chunks.len(), 1);

    // one more record forces a second segment
    let entity = spawn_int(&mut world, 12345);
    assert_eq!(world.chunks.len(), 2);
    assert_eq!(entity.index, CHUNK_SIZE);
}

#[test]
fn mod_command() {
    let mut world = World::new();

    let entity = spawn_int(&mut world, 12345);
    world.remove(entity);

    assert_eq!(spawn_int(&mut world, 114514).generator, ALIVE_TAG);

    let recs: Vec<Vec<CompCell>> = (1..CHUNK_SIZE as i64).map(int_rec).collect();
    let last = *world.spawn_many(INT, vec![INT], recs).last().unwrap();

    assert_eq!(entity.index, last.index);
    assert_eq!(entity.generator, last.generator - 1);

    assert_eq!(world.chunks.len(), 1);

    let entity = spawn_int(&mut world, 12345);
    assert_eq!(world.chunks.len(), 2);
    assert_eq!(entity.index, CHUNK_SIZE);
}

#[test]
fn world_command() {
    let mut world = World::new();

    let entity = spawn_int(&mut world, 12345);
    world.remove(entity);

    assert_eq!(spawn_int(&mut world, 114514).generator, ALIVE_TAG);

    let recs: Vec<Vec<CompCell>> = (1..CHUNK_SIZE as i64).map(int_rec).collect();
    let last = *world.spawn_many(INT, vec![INT], recs).last().unwrap();

    assert_eq!(entity.index, last.index);
    assert_eq!(entity.generator, last.generator - 1);

    assert_eq!(world.chunks.len(), 1);

    let entity = spawn_int(&mut world, 12345);
    assert_eq!(world.chunks.len(), 2);
    assert_eq!(entity.index, CHUNK_SIZE);
}

#[test]
fn capacity_four_scenario() {
    // capacity = 4: the fifth record opens a second segment
    let mut world = World::with_capacity(4);
    let e1 = spawn_int(&mut world, 1);
    let e2 = spawn_int(&mut world, 2);
    let e3 = spawn_int(&mut world, 3);
    let e4 = spawn_int(&mut world, 4);
    let e5 = spawn_int(&mut world, 5);
    assert_eq!(e1.index, 0);
    assert_eq!(e2.index, 1);
    assert_eq!(e3.index, 2);
    assert_eq!(e4.index, 3);
    // the fifth lands at the start of segment one: global slot index 4
    assert_eq!(e5.index, 4);
    assert_eq!(world.chunks.len(), 2);

    // remove the record holding 2 (segment 0, slot 1), insert 6: the slot
    // is reused one generation later
    assert!(world.remove(e2));
    let e6 = spawn_int(&mut world, 6);
    assert_eq!(e6.index, 1);
    assert_eq!(e6.generator, e2.generator + 1);

    // the record holding 1 is untouched and still reachable
    assert_eq!(world.alive(e1), Some(true));
    assert_eq!(world.alive(e2), Some(false));
    let req = FetchRequest::Unit { type_id: INT, mutable: false };
    let view = world.fetch(e1, &req).unwrap();
    assert_eq!(view[0].value, CompValue::Int(1));
}

#[test]
fn alive_is_tri_state() {
    let mut world = World::new();
    let e = spawn_int(&mut world, 9);
    assert_eq!(world.alive(e), Some(true));
    world.remove(e);
    assert_eq!(world.alive(e), Some(false));
    // a handle pointing past every segment is unknown, not merely stale
    let far = trecs::storage::Entity::new(ALIVE_TAG, CHUNK_SIZE * 7);
    assert_eq!(world.alive(far), None);
}

#[test]
fn replace_keeps_identity_and_checks_schema() {
    let mut world = World::new();
    let e = spawn_int(&mut world, 41);

    // wrong schema: the record comes back untouched
    let wrong = vec![CompCell::of_int(99, 5)];
    assert_eq!(world.replace(e, wrong.clone()), Err(wrong));

    // right schema: overwritten in place, the handle stays valid
    assert_eq!(world.replace(e, int_rec(42)), Ok(()));
    assert_eq!(world.alive(e), Some(true));
    let req = FetchRequest::Unit { type_id: INT, mutable: false };
    let view = world.fetch(e, &req).unwrap();
    assert_eq!(view[0].value, CompValue::Int(42));

    // a dead handle is refused
    world.remove(e);
    assert_eq!(world.replace(e, int_rec(1)), Err(int_rec(1)));
}

#[test]
fn register_is_idempotent() {
    let mut world = World::new();
    assert_eq!(world.register(7, vec![1, 2]), false);
    assert_eq!(world.register(7, vec![1, 2]), true);
    assert_eq!(world.metas.len(), 1);
}

#[test]
fn spawn_many_returns_distinct_live_handles() {
    let mut world = World::with_capacity(3);
    let recs: Vec<Vec<CompCell>> = (0..7).map(int_rec).collect();
    let es = world.spawn_many(INT, vec![INT], recs);
    assert_eq!(es.len(), 7);
    for (i, e) in es.iter().enumerate() {
        assert_eq!(world.alive(*e), Some(true));
        let req = FetchRequest::Unit { type_id: INT, mutable: false };
        let view = world.fetch(*e, &req).unwrap();
        assert_eq!(view[0].value, CompValue::Int(i as i64));
    }
    // seven records at capacity three pack into three segments
    assert_eq!(world.chunks.len(), 3);
}
