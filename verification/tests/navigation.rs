use openhp1_runtime::navigation::{next_navigation_step, NavigationReachSpec};
use openhp1_runtime::value::{runtime_actor_id, ObjectId};

fn spec(index: i32, start: ObjectId, end: ObjectId, distance: i32) -> NavigationReachSpec {
    NavigationReachSpec {
        index,
        distance,
        start,
        end,
        collision_radius: 40,
        collision_height: 40,
        pruned: false,
    }
}

#[test]
fn navigation_uses_the_shortest_unpruned_step() {
    let start = runtime_actor_id(1);
    let short = runtime_actor_id(2);
    let long = runtime_actor_id(3);
    let target = runtime_actor_id(4);
    let specs = vec![
        spec(0, start.duplicate(), long.duplicate(), 10),
        spec(1, long, target.duplicate(), 10),
        spec(2, start.duplicate(), short.duplicate(), 3),
        spec(3, short.duplicate(), target.duplicate(), 3),
    ];
    assert_eq!(next_navigation_step(&specs, &start, &target, 0, 0), Some(short));
}

#[test]
fn navigation_skips_pruned_and_narrow_links() {
    let start = runtime_actor_id(1);
    let near = runtime_actor_id(2);
    let far = runtime_actor_id(3);
    let target = runtime_actor_id(4);
    let mut pruned = spec(2, start.duplicate(), near.duplicate(), 1);
    pruned.pruned = true;
    let specs = vec![
        spec(0, start.duplicate(), far.duplicate(), 10),
        spec(1, far.duplicate(), target.duplicate(), 10),
        pruned,
        spec(3, near.duplicate(), target.duplicate(), 1),
    ];
    assert_eq!(next_navigation_step(&specs, &start, &target, 0, 0), Some(far.duplicate()));
    assert_eq!(next_navigation_step(&specs, &start, &target, 50, 0), None);
}

#[test]
fn navigation_at_the_target_stays_there() {
    let here = runtime_actor_id(7);
    assert_eq!(next_navigation_step(&Vec::new(), &here, &here, 0, 0), Some(runtime_actor_id(7)));
    assert_eq!(next_navigation_step(&Vec::new(), &here, &runtime_actor_id(8), 0, 0), None);
}

#[test]
fn navigation_prefers_the_shortest_of_several_ways() {
    let start = runtime_actor_id(1);
    let a = runtime_actor_id(2);
    let b = runtime_actor_id(3);
    let c = runtime_actor_id(4);
    let target = runtime_actor_id(5);
    let specs = vec![
        spec(0, start.duplicate(), target.duplicate(), 10),
        spec(1, start.duplicate(), c.duplicate(), -5),
        spec(2, c.duplicate(), target.duplicate(), 7),
        spec(3, start.duplicate(), a.duplicate(), 2),
        spec(4, a.duplicate(), b.duplicate(), 2),
        spec(5, b.duplicate(), target.duplicate(), 2),
    ];
    assert_eq!(next_navigation_step(&specs, &start, &target, 0, 0), Some(a));
    let mut longer = specs;
    longer[5].distance = 4;
    assert_eq!(next_navigation_step(&longer, &start, &target, 0, 0), Some(c));
}

#[test]
fn navigation_with_the_smallest_size_ignores_collision_sizes() {
    let start = runtime_actor_id(1);
    let target = runtime_actor_id(2);
    let mut narrow = spec(0, start.duplicate(), target.duplicate(), 1);
    narrow.collision_radius = 60;
    narrow.collision_height = 60;
    let specs = vec![narrow];
    assert_eq!(next_navigation_step(&specs, &start, &target, 73, 74), None);
    assert_eq!(
        next_navigation_step(&specs, &start, &target, i32::MIN, i32::MIN),
        Some(target.duplicate())
    );
}
