use trecs::bundle::BundleMeta;
use trecs::component::{CompCell, CompValue};
use trecs::fetch::{FetchRequest, MappingTable, build, contain};
use trecs::filter::{All, AnyOf, FilterExpr, Not, With, WithOut, pass};
use trecs::iter::Iter;
use trecs::scheduler::{
    Alias, AliasMap, Query, Scheduler, System, SystemState, check_round, requests_conflict,
};
use trecs::world::World;

const A: u64 = 1;
const B: u64 = 2;
const C: u64 = 3;

fn unit(id: u64, mutable: bool) -> FetchRequest {
    FetchRequest::Unit { type_id: id, mutable }
}

fn pair(x: FetchRequest, y: FetchRequest) -> FetchRequest {
    FetchRequest::Tuple(vec![x, y])
}

fn rec_ab(a: i64, b: i64) -> Vec<CompCell> {
    vec![CompCell::of_int(A, a), CompCell::of_int(B, b)]
}

#[test]
fn test_name() {
    // a declared unit of work passes the round check on a small store
    let mut world = World::new();
    world.spawn(A, vec![A], vec![CompCell::of_int(A, 5)]);
    let mut scheduler = world.scheduler();
    let mut greet = System::new();
    greet.declare_query(unit(A, false), FilterExpr::Group(vec![]));
    scheduler.add_system(greet);
    let mut schedule = scheduler.build();
    assert!(schedule.run(&mut world));
}

#[test]
fn contain_consumes_first_found() {
    // schema [A, B]: the pair (B, A) maps to physical indices (1, 0)
    let ids = vec![A, B];
    let mut avail = vec![true, true];
    let table = contain(&pair(unit(B, false), unit(A, false)), &ids, &mut avail).unwrap();
    match &table {
        MappingTable::Node(children) => {
            assert_eq!(children[0].as_mapping(), Some(&1));
            assert_eq!(children[1].as_mapping(), Some(&0));
        },
        MappingTable::Mapping(_) => panic!("a pair resolves to a node"),
    }
    assert_eq!(avail, vec![false, false]);
}

#[test]
fn contain_mutable_aliases_never_resolve() {
    // (mutable A, mutable A) never resolves: the first leaf consumes A
    let ids = vec![A, B];
    let mut avail = vec![true, true];
    assert!(contain(&pair(unit(A, true), unit(A, true)), &ids, &mut avail).is_none());
}

#[test]
fn build_round_trip() {
    // decompose -> reconstruct under the same schema -> decompose again
    // yields the identical erased-component sequence
    let ids = vec![A, B];
    let cells = rec_ab(10, 20);
    let mut avail = vec![true, true];
    let table = contain(&pair(unit(A, false), unit(B, false)), &ids, &mut avail).unwrap();
    let view = build(&pair(unit(A, false), unit(B, false)), &table, &cells).unwrap();
    let again: Vec<CompCell> = view.iter().map(|c| (*c).clone()).collect();
    assert_eq!(again, cells);
}

#[test]
fn filter_set_semantics() {
    // ALL({A,B}) iff the schema holds both; ANY iff it meets them;
    // NONE iff it avoids them
    let schema = vec![A, B];
    assert!(All::new(vec![A, B]).filter(&schema));
    assert!(!All::new(vec![A, C]).filter(&schema));
    assert!(AnyOf::new(vec![C, B]).filter(&schema));
    assert!(!AnyOf::new(vec![C]).filter(&schema));
    assert!(Not::new(vec![C]).filter(&schema));
    assert!(!Not::new(vec![B]).filter(&schema));
    assert!(With::new(vec![A]).pass(&schema));
    assert!(WithOut::new(vec![C]).pass(&schema));
    // the empty predicate group is vacuously true
    assert!(pass(&FilterExpr::Group(vec![]), &schema));
    // a group holds exactly when all its members do
    assert!(pass(
        &FilterExpr::Group(vec![FilterExpr::All(vec![A]), FilterExpr::Not(vec![C])]),
        &schema,
    ));
    assert!(!pass(
        &FilterExpr::Group(vec![FilterExpr::All(vec![A]), FilterExpr::Not(vec![B])]),
        &schema,
    ));
}

#[test]
fn meta_caches_predicates_and_projections() {
    let mut meta = BundleMeta::new(9, vec![A, B]);
    let f = FilterExpr::All(vec![A]);
    assert!(meta.filter(&f));
    assert!(meta.filter(&f));
    assert_eq!(meta.filter_cache.len(), 1);

    let req = unit(B, false);
    assert!(meta.fetch(&req).is_some());
    assert_eq!(meta.fetch_cache.len(), 1);
    assert!(meta.fetch(&req).is_some());
    assert_eq!(meta.fetch_cache.len(), 1);
    // a projection that cannot resolve is not cached
    assert!(meta.fetch(&unit(C, false)).is_none());
    assert_eq!(meta.fetch_cache.len(), 1);
}

#[test]
fn parallel_mut_read_is_fatal() {
    // two units in one parallel group, one mutable C and one read C:
    // the round check reports the configuration error at setup time
    let mut world = World::new();
    world.spawn(C, vec![C], vec![CompCell::of_int(C, 1)]);

    let mut writer = System::new();
    writer.declare_query(unit(C, true), FilterExpr::Group(vec![]));
    let mut reader = System::new();
    reader.declare_query(unit(C, false), FilterExpr::Group(vec![]));

    let mut scheduler = Scheduler::new();
    scheduler.add_parallel(vec![writer, reader]);
    assert!(!check_round(&mut world, &scheduler.groups));

    // the same two units in their own groups run in order, soundly
    let mut writer2 = System::new();
    writer2.declare_query(unit(C, true), FilterExpr::Group(vec![]));
    let mut reader2 = System::new();
    reader2.declare_query(unit(C, false), FilterExpr::Group(vec![]));
    let mut sequential = Scheduler::new();
    sequential.add_system(writer2);
    sequential.add_system(reader2);
    assert!(check_round(&mut world, &sequential.groups));
}

#[test]
fn parallel_readers_are_sound() {
    let mut world = World::new();
    world.spawn(C, vec![C], vec![CompCell::of_int(C, 1)]);
    let mut r1 = System::new();
    r1.declare_query(unit(C, false), FilterExpr::Group(vec![]));
    let mut r2 = System::new();
    r2.declare_query(unit(C, false), FilterExpr::Group(vec![]));
    let mut scheduler = Scheduler::new();
    scheduler.add_parallel(vec![r1, r2]);
    assert!(check_round(&mut world, &scheduler.groups));
}

#[test]
fn requests_conflict_on_shared_index() {
    let mut meta = BundleMeta::new(9, vec![A, B]);
    // both project A, one mutably: shared physical index, a conflict
    assert!(requests_conflict(&unit(A, true), &unit(A, false), &mut meta));
    // disjoint components: no conflict
    assert!(!requests_conflict(&unit(A, true), &unit(B, true), &mut meta));
    // both read-only: no conflict
    assert!(!requests_conflict(&unit(A, false), &unit(A, false), &mut meta));
}

#[test]
fn singleton_rule_over_a_round() {
    let mut writer = System::new();
    writer.declare_res(7, Alias::Mut);
    let mut reader = System::new();
    reader.declare_res(7, Alias::Imut);
    let mut scheduler = Scheduler::new();
    scheduler.add_system(writer);
    scheduler.add_system(reader);
    // one mutable accessor beside any other accessor of the same
    // singleton is refused, even across sequential units of the round
    let mut world = World::new();
    assert!(!check_round(&mut world, &scheduler.groups));

    let mut r1 = System::new();
    r1.declare_res(7, Alias::Imut);
    let mut r2 = System::new();
    r2.declare_res(7, Alias::Imut);
    let mut readers = Scheduler::new();
    readers.add_system(r1);
    readers.add_system(r2);
    assert!(check_round(&mut world, &readers.groups));
}

#[test]
fn alias_map_refuses_mutable_overlap() {
    let mut map = AliasMap::new();
    assert!(map.insert(1, Alias::Imut));
    assert!(map.insert(1, Alias::Imut));
    assert!(!map.insert(1, Alias::Mut));
    assert!(map.insert(2, Alias::Mut));
    assert!(!map.insert(2, Alias::Imut));
}

#[test]
fn system_state_handles_are_unique() {
    let mut state = SystemState::new();
    assert!(state.new_res(1));
    assert!(!state.new_res(1));
    assert!(state.new_res(2));
    assert!(!state.new_resources());
    assert!(state.new_access());
    assert!(!state.new_access());
    assert!(state.new_command());
    assert!(!state.new_command());

    let mut broad = SystemState::new();
    assert!(broad.new_resources());
    assert!(!broad.new_res(1));
}

#[test]
fn sync_and_access_iterate_live_records() {
    let mut world = World::new();
    world.spawn(A, vec![A, B], rec_ab(1, 10));
    world.spawn(A, vec![A, B], rec_ab(2, 20));
    let lone = world.spawn(C, vec![C], vec![CompCell::of_int(C, 5)]);

    let mut scheduler = world.scheduler();
    scheduler.registry_fetch(unit(B, false));
    scheduler.registry_query(FilterExpr::All(vec![A]));
    scheduler.sync(&world);

    let access = scheduler.new_access(&world, 0, 0);
    let mut iter = access.bundle_iter();
    let mut seen = Vec::new();
    while let Some(v) = iter.next() {
        match &v[0].value {
            CompValue::Int(x) => seen.push(*x),
            _ => panic!("an integer component was stored"),
        }
    }
    seen.sort();
    // both two-component records are visited once; the C record is not
    assert_eq!(seen, vec![10, 20]);
    assert_eq!(world.alive(lone), Some(true));
}

#[test]
fn iter_walks_cached_projections() {
    let mut world = World::new();
    world.spawn(A, vec![A, B], rec_ab(1, 100));
    world.spawn(A, vec![A, B], rec_ab(2, 200));
    // resolve the projection once so the schema cache holds its tree
    let e = world.spawn(A, vec![A, B], rec_ab(3, 300));
    let req = unit(B, false);
    assert!(world.fetch(e, &req).is_some());

    let filt = FilterExpr::Group(vec![]);
    let mut iter = Iter::new(&world, &req, &filt);
    let mut seen = Vec::new();
    while let Some(v) = iter.next() {
        match &v[0].value {
            CompValue::Int(x) => seen.push(*x),
            _ => panic!("an integer component was stored"),
        }
    }
    seen.sort();
    assert_eq!(seen, vec![100, 200, 300]);
}

#[test]
fn query_pairs_fetch_and_filter() {
    let q = Query::new(unit(A, true), FilterExpr::All(vec![A, B]));
    match q.fetch {
        FetchRequest::Unit { type_id, mutable } => {
            assert_eq!(type_id, A);
            assert!(mutable);
        },
        FetchRequest::Tuple(_) => panic!("a leaf request stays a leaf"),
    }
    match q.filt {
        FilterExpr::All(ids) => assert_eq!(ids, vec![A, B]),
        _ => panic!("the predicate is kept as declared"),
    }
}
