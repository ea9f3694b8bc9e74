use trecs::component::{CompCell, CompValue};
use trecs::storage::{ALIVE_TAG, CHUNK_SIZE, Chunk, ChunkIter, Entity};

const INT: u64 = 1;
const TEXT: u64 = 2;

fn int_rec(v: i64) -> Vec<CompCell> {
    vec![CompCell::of_int(INT, v)]
}

#[test]
fn insert_remove() {
    let mut chunk = Chunk::new(0);

    // two records go into the first two slots
    assert_eq!(chunk.insert(int_rec(123)), Ok(Entity::new(ALIVE_TAG, 0)));
    assert_eq!(chunk.insert(int_rec(456)), Ok(Entity::new(ALIVE_TAG, 1)));

    // fill every remaining slot
    for idx in 2..CHUNK_SIZE {
        assert_eq!(chunk.insert(int_rec(0)), Ok(Entity::new(ALIVE_TAG, idx)));
    }

    // nothing fits any more: the record comes back
    assert_eq!(chunk.insert(int_rec(123456)), Err(int_rec(123456)));

    // pull one out
    assert!(chunk.remove(Entity::new(ALIVE_TAG, 1)));

    // the replacement reuses the slot under the next generation
    assert_eq!(chunk.insert(int_rec(114514)), Ok(Entity::new(ALIVE_TAG + 1, 1)));
}

#[test]
fn mod_insert_remove() {
    let mut chunk = Chunk::new(0);

    assert_eq!(chunk.insert(int_rec(123)), Ok(Entity::new(ALIVE_TAG, 0)));
    assert_eq!(chunk.insert(int_rec(456)), Ok(Entity::new(ALIVE_TAG, 1)));

    for idx in 2..CHUNK_SIZE {
        assert_eq!(chunk.insert(int_rec(0)), Ok(Entity::new(ALIVE_TAG, idx)));
    }

    assert_eq!(chunk.insert(int_rec(123456)), Err(int_rec(123456)));

    assert_eq!(chunk.remove(Entity::new(ALIVE_TAG, 1)), true);

    assert_eq!(chunk.insert(int_rec(114514)), Ok(Entity::new(ALIVE_TAG + 1, 1)));
}

#[test]
fn chunk() {
    let mut chunk = Chunk::new(0);

    {
        let bundle = vec![
            CompCell::of_int(INT, 1),
            CompCell::of_text(TEXT, String::from("hello world")),
        ];
        chunk.insert(bundle).unwrap();
    }
    {
        let bundle = vec![
            CompCell::of_int(INT, 1),
            CompCell::of_text(TEXT, String::from("hello world")),
        ];
        chunk.insert(bundle).unwrap();
    }
    assert_eq!(chunk.alive(Entity::new(ALIVE_TAG, 0)), Some(true));
    chunk.remove(Entity::new(ALIVE_TAG, 0));
    assert_eq!(chunk.alive(Entity::new(ALIVE_TAG, 0)), Some(false));
    let third = {
        let bundle = vec![
            CompCell::of_int(INT, 1),
            CompCell::of_text(TEXT, String::from("hello world")),
        ];
        chunk.insert(bundle).unwrap()
    };
    assert_eq!(chunk.alive(third), Some(true));
}

#[test]
fn chunk_free_counts_slots() {
    let mut chunk = Chunk::for_schema(0, INT, 8);
    assert_eq!(chunk.free(), 8);
    let a = chunk.insert(int_rec(1)).unwrap();
    let _b = chunk.insert(int_rec(2)).unwrap();
    assert_eq!(chunk.free(), 6);
    assert!(chunk.remove(a));
    assert_eq!(chunk.free(), 7);
}

#[test]
fn chunk_iter_skips_cleared_slots() {
    let mut chunk = Chunk::for_schema(0, INT, 8);
    let _a = chunk.insert(int_rec(10)).unwrap();
    let b = chunk.insert(int_rec(20)).unwrap();
    let _c = chunk.insert(int_rec(30)).unwrap();
    assert!(chunk.remove(b));

    let mut it = ChunkIter::new(&chunk);
    let first = it.next().unwrap();
    assert_eq!(first[0].value, CompValue::Int(10));
    let second = it.next().unwrap();
    assert_eq!(second[0].value, CompValue::Int(30));
    assert!(it.next().is_none());
}

#[test]
fn chunk_replace_keeps_generation() {
    let mut chunk = Chunk::for_schema(0, INT, 4);
    let e = chunk.insert(int_rec(5)).unwrap();
    chunk.replace(0, int_rec(50));
    // identity persists through a replacement: the handle stays valid
    assert_eq!(chunk.alive(e), Some(true));
    let mut it = ChunkIter::new(&chunk);
    assert_eq!(it.next().unwrap()[0].value, CompValue::Int(50));
}

#[test]
fn chunk_remove_vul_returns_record() {
    let mut chunk = Chunk::for_schema(0, INT, 4);
    let e = chunk.insert(int_rec(7)).unwrap();
    let taken = chunk.remove_vul(0);
    assert_eq!(taken, int_rec(7));
    assert_eq!(chunk.alive(e), Some(false));
}

#[test]
fn chunk_clear_hands_back_live_records() {
    let mut chunk = Chunk::for_schema(0, INT, 4);
    let _a = chunk.insert(int_rec(1)).unwrap();
    let b = chunk.insert(int_rec(2)).unwrap();
    let _c = chunk.insert(int_rec(3)).unwrap();
    assert!(chunk.remove(b));
    let all = chunk.clear();
    assert_eq!(all, vec![int_rec(1), int_rec(3)]);
}

#[test]
fn entity_sync_rebases_index() {
    let e = Entity::new(ALIVE_TAG, 3);
    let g = e.sync(2, 10);
    assert_eq!(g.index, 23);
    assert_eq!(g.generator, ALIVE_TAG);
}
