use trecs::command::Commands;
use trecs::component::{CompCell, CompValue};
use trecs::fetch::FetchRequest;
use trecs::resources::{Res, Resources};
use trecs::storage::Entity;
use trecs::tree::TypeIdTree;
use trecs::world::World;

const INT: u64 = 1;

fn int_rec(v: i64) -> Vec<CompCell> {
    vec![CompCell::of_int(INT, v)]
}

#[test]
fn resources_slot_map() {
    let mut res = Resources::new();
    assert!(!res.contain(5));
    res.new_res(5);
    assert!(res.contain(5));
    assert!(res.get_res(5).is_none());

    assert_eq!(res.get_res_mut(5, CompValue::Uint(11)), None);
    assert_eq!(res.get_res(5), Some(&CompValue::Uint(11)));

    // a second write hands the first value back
    assert_eq!(res.get_res_mut(5, CompValue::Uint(12)), Some(CompValue::Uint(11)));

    // other singletons stay untouched
    res.new_res(6);
    assert_eq!(res.get_res(5), Some(&CompValue::Uint(12)));

    let taken = res.take_res(5);
    assert_eq!(taken.get(), Some(&CompValue::Uint(12)));
    assert!(res.get_res(5).is_none());
    res.put_res(5, taken);
    assert_eq!(res.get_res(5), Some(&CompValue::Uint(12)));
}

#[test]
fn res_handle_lifecycle() {
    let mut handle = Res::new(None);
    assert!(handle.get().is_none());
    assert_eq!(handle.get_or_init(CompValue::Int(3)), &CompValue::Int(3));
    // a filled slot keeps its value through get_or_init
    assert_eq!(handle.get_or_init(CompValue::Int(9)), &CompValue::Int(3));
    if let Some(v) = handle.get_mut() {
        *v = CompValue::Int(4);
    }
    assert_eq!(handle.get(), Some(&CompValue::Int(4)));
    assert_eq!(handle.take(), Some(CompValue::Int(4)));
    assert!(handle.get().is_none());
    handle.remove();
    assert!(handle.get().is_none());
}

#[test]
fn commands_apply_in_order() {
    let mut world = World::new();
    let mut commands = Commands::new();
    commands.register(INT, vec![INT]);
    commands.spawn(INT, vec![INT], int_rec(1));
    commands.spawn(INT, vec![INT], int_rec(2));
    let applied = commands.apply(&mut world);
    assert_eq!(applied, 3);

    let e1 = Entity::new(trecs::storage::ALIVE_TAG, 0);
    assert_eq!(world.alive(e1), Some(true));

    let mut more = Commands::new();
    more.remove(e1);
    // a record whose cells do not carry the schema is skipped
    more.spawn(INT, vec![INT], vec![CompCell::of_int(77, 1)]);
    assert_eq!(more.apply(&mut world), 1);
    assert_eq!(world.alive(e1), Some(false));
}

#[test]
fn tree_set_then_get() {
    let mut tree: TypeIdTree<u32> = TypeIdTree::new();
    assert!(tree.get(0x1234_5678_9abc_def0).is_none());
    assert!(tree.set(0x1234_5678_9abc_def0, 7));
    assert_eq!(tree.get(0x1234_5678_9abc_def0), Some(&7));
    // a near miss in the last nibble finds nothing
    assert!(tree.get(0x1234_5678_9abc_def1).is_none());
    // overwriting under the same key
    assert!(tree.set(0x1234_5678_9abc_def0, 9));
    assert_eq!(tree.get(0x1234_5678_9abc_def0), Some(&9));
    // a second, distant key lives beside the first
    assert!(tree.set(3, 30));
    assert_eq!(tree.get(3), Some(&30));
    assert_eq!(tree.get(0x1234_5678_9abc_def0), Some(&9));
    if let Some(v) = tree.get_mut(3) {
        *v = 31;
    }
    assert_eq!(tree.get(3), Some(&31));
    assert!(tree.as_node().is_some());
    assert!(tree.as_data().is_none());
    assert!(tree.as_node_mut().is_some());
    assert!(tree.as_data_mut().is_none());
}

#[test]
fn reclaim_hands_the_record_back() {
    let mut world = World::new();
    let e = world.spawn(INT, vec![INT], int_rec(77));
    let rec = world.reclaim(e).unwrap();
    assert_eq!(rec, int_rec(77));
    assert_eq!(world.alive(e), Some(false));
    // a dead handle reclaims nothing
    assert!(world.reclaim(e).is_none());
}

#[test]
fn write_component_keeps_schema_and_identity() {
    const A: u64 = 1;
    const B: u64 = 2;
    let mut world = World::new();
    let rec = vec![CompCell::of_int(A, 10), CompCell::of_int(B, 20)];
    let e = world.spawn(9, vec![A, B], rec);

    // the right id at the right position is written in place
    assert!(world.write_component(e, 1, CompCell::of_int(B, 21)));
    assert_eq!(world.alive(e), Some(true));
    let req = FetchRequest::Unit { type_id: B, mutable: false };
    let view = world.fetch(e, &req).unwrap();
    assert_eq!(view[0].value, CompValue::Int(21));

    // a wrong id, a bad position, a dead handle: refused, nothing changes
    assert!(!world.write_component(e, 1, CompCell::of_int(A, 5)));
    assert!(!world.write_component(e, 2, CompCell::of_int(B, 5)));
    world.remove(e);
    assert!(!world.write_component(e, 1, CompCell::of_int(B, 5)));
}

#[test]
fn fetch_after_remove_is_refused() {
    let mut world = World::new();
    let e = world.spawn(INT, vec![INT], int_rec(21));
    let req = FetchRequest::Unit { type_id: INT, mutable: false };
    assert!(world.fetch(e, &req).is_some());
    world.remove(e);
    assert!(world.fetch(e, &req).is_none());
}

#[test]
fn fetch_of_missing_component_is_refused() {
    let mut world = World::new();
    let e = world.spawn(INT, vec![INT], int_rec(21));
    let req = FetchRequest::Unit { type_id: 99, mutable: false };
    assert!(world.fetch(e, &req).is_none());
}
