//! The next step towards a navigation point, found by a shortest-first
//! search over the reach specs between navigation points.
use vstd::prelude::*;
use crate::value::{ObjectId, ObjectIdModel};

verus! {

/// A directed link between two navigation points, usable by actors up to
/// its collision size unless it was pruned.
pub struct NavigationReachSpec {
    pub index: i32,
    pub distance: i32,
    pub start: ObjectId,
    pub end: ObjectId,
    pub collision_radius: i32,
    pub collision_height: i32,
    pub pruned: bool,
}

/// Whether an actor of the given collision size may use a link.
pub open spec fn usable(spec: NavigationReachSpec, radius: i32, height: i32) -> bool {
    !spec.pruned && spec.collision_radius >= radius && spec.collision_height >= height
}

/// For the smallest collision size, a link is usable exactly when it is not
/// pruned: the search ignores collision sizes.
pub proof fn lemma_smallest_size_uses_every_link(spec: NavigationReachSpec)
    ensures
        usable(spec, i32::MIN, i32::MIN) == !spec.pruned,
{
}

/// Whether a usable link leads from `from` to `to`.
pub open spec fn link(
    specs: Seq<NavigationReachSpec>,
    radius: i32,
    height: i32,
    from: ObjectIdModel,
    to: ObjectIdModel,
) -> bool {
    exists|i: int|
        0 <= i < specs.len() && #[trigger] specs[i].start@ == from && specs[i].end@ == to && usable(
            specs[i],
            radius,
            height,
        )
}

/// Whether consecutive points of `path` are joined by usable links.
pub open spec fn linked(specs: Seq<NavigationReachSpec>, radius: i32, height: i32, path: Seq<ObjectIdModel>) -> bool {
    forall|k: int|
        #![trigger path[k]]
        0 <= k < path.len() - 1 ==> link(specs, radius, height, path[k], path[k + 1])
}

/// The entry a table keyed by navigation point holds for `key`: its first.
pub open spec fn lookup<X>(table: Seq<(ObjectId, X)>, key: ObjectIdModel) -> Option<X>
    decreases table.len(),
{
    if table.len() == 0 {
        None
    } else if table[0].0@ == key {
        Some(table[0].1)
    } else {
        lookup(table.subrange(1, table.len() as int), key)
    }
}

proof fn lemma_lookup_update<X>(table: Seq<(ObjectId, X)>, i: int, entry: (ObjectId, X))
    requires
        0 <= i < table.len(),
        table[i].0@ == entry.0@,
        forall|j: int| 0 <= j < i ==> table[j].0@ != entry.0@,
    ensures
        forall|k: ObjectIdModel|
            #[trigger] lookup(table.update(i, entry), k) == if k == entry.0@ {
                Some(entry.1)
            } else {
                lookup(table, k)
            },
    decreases table.len(),
{
    let t = table.update(i, entry);
    let rest = table.subrange(1, table.len() as int);
    if i > 0 {
        lemma_lookup_update(rest, i - 1, entry);
        assert(t.subrange(1, t.len() as int) =~= rest.update(i - 1, entry));
    } else {
        assert(t.subrange(1, t.len() as int) =~= rest);
    }
    assert forall|k: ObjectIdModel|
        #[trigger] lookup(t, k) == if k == entry.0@ {
            Some(entry.1)
        } else {
            lookup(table, k)
        } by {
        if i == 0 {
            assert(t[0] == entry);
        } else {
            assert(t[0] == table[0]);
            assert(table[0].0@ != entry.0@);
            assert(lookup(t.subrange(1, t.len() as int), k) == lookup(rest.update(i - 1, entry), k));
        }
    }
}

proof fn lemma_lookup_push<X>(table: Seq<(ObjectId, X)>, entry: (ObjectId, X))
    requires
        forall|j: int| 0 <= j < table.len() ==> table[j].0@ != entry.0@,
    ensures
        forall|k: ObjectIdModel|
            #[trigger] lookup(table.push(entry), k) == if k == entry.0@ {
                Some(entry.1)
            } else {
                lookup(table, k)
            },
    decreases table.len(),
{
    let t = table.push(entry);
    if table.len() > 0 {
        let rest = table.subrange(1, table.len() as int);
        lemma_lookup_push(rest, entry);
        assert(t.subrange(1, t.len() as int) =~= rest.push(entry));
        assert forall|k: ObjectIdModel|
            #[trigger] lookup(t, k) == if k == entry.0@ {
                Some(entry.1)
            } else {
                lookup(table, k)
            } by {
            assert(t[0] == table[0]);
            assert(table[0].0@ != entry.0@);
            assert(lookup(t.subrange(1, t.len() as int), k) == lookup(rest.push(entry), k));
        }
    } else {
        assert(t.subrange(1, t.len() as int) =~= Seq::<(ObjectId, X)>::empty());
        assert forall|k: ObjectIdModel|
            #[trigger] lookup(t, k) == if k == entry.0@ {
                Some(entry.1)
            } else {
                lookup(table, k)
            } by {
            assert(t[0] == entry);
            assert(t.len() == 1);
            assert(lookup(t, k) == if t[0].0@ == k {
                Some(t[0].1)
            } else {
                lookup(t.subrange(1, t.len() as int), k)
            });
            assert(lookup(Seq::<(ObjectId, X)>::empty(), k) == None::<X>);
            assert(lookup(table, k) == None::<X>);
        }
    }
}

/// The position of the entry for `key`.
fn find_node<X>(table: &Vec<(ObjectId, X)>, key: &ObjectId) -> (r: Option<usize>)
    ensures
        match r {
            Some(i) => i < table@.len() && table@[i as int].0@ == key@ && lookup(table@, key@) == Some(
                table@[i as int].1,
            ) && forall|j: int| 0 <= j < i ==> table@[j].0@ != key@,
            None => lookup(table@, key@) is None && forall|j: int|
                0 <= j < table@.len() ==> table@[j].0@ != key@,
        },
{
    let mut i: usize = 0;
    assert(table@.subrange(0, table@.len() as int) =~= table@);
    while i < table.len()
        invariant
            0 <= i <= table@.len(),
            lookup(table@, key@) == lookup(table@.subrange(i as int, table@.len() as int), key@),
            forall|j: int| 0 <= j < i ==> table@[j].0@ != key@,
        decreases table@.len() - i,
    {
        let ghost rest = table@.subrange(i as int, table@.len() as int);
        assert(rest[0] == table@[i as int]);
        assert(rest.subrange(1, rest.len() as int) =~= table@.subrange(i + 1, table@.len() as int));
        if table[i].0.same(key) {
            return Some(i);
        }
        i = i + 1;
    }
    None
}

/// Sets the entry for `key`.
fn assign<X>(table: &mut Vec<(ObjectId, X)>, key: ObjectId, value: X)
    ensures
        forall|k: ObjectIdModel|
            #[trigger] lookup(final(table)@, k) == if k == key@ {
                Some(value)
            } else {
                lookup(old(table)@, k)
            },
{
    let ghost before = table@;
    let ghost k0 = key@;
    match find_node(table, &key) {
        Some(i) => {
            proof {
                lemma_lookup_update(before, i as int, (key, value));
            }
            table.set(i, (key, value));
        },
        None => {
            proof {
                lemma_lookup_push(before, (key, value));
            }
            table.push((key, value));
        },
    }
}

/// Whether a navigation point is listed.
fn lists_node(nodes: &Vec<ObjectId>, node: &ObjectId) -> (r: bool)
    ensures
        r == exists|j: int| 0 <= j < nodes@.len() && #[trigger] nodes@[j]@ == node@,
{
    let mut i: usize = 0;
    while i < nodes.len()
        invariant
            0 <= i <= nodes@.len(),
            forall|j: int| 0 <= j < i ==> nodes@[j]@ != node@,
        decreases nodes@.len() - i,
    {
        if nodes[i].same(node) {
            return true;
        }
        i = i + 1;
    }
    false
}

/// The points a search can reach: the start and the ends of the links.
pub open spec fn universe(specs: Seq<NavigationReachSpec>, start: ObjectIdModel) -> Seq<ObjectIdModel> {
    seq![start] + specs.map_values(|s: NavigationReachSpec| s.end@)
}

proof fn lemma_settled_bound(settled: Seq<ObjectIdModel>, all: Seq<ObjectIdModel>)
    requires
        settled.no_duplicates(),
        forall|j: int| 0 <= j < settled.len() ==> all.contains(#[trigger] settled[j]),
    ensures
        settled.len() <= all.len(),
{
    settled.unique_seq_to_set();
    all.lemma_cardinality_of_set();
    assert(settled.to_set().subset_of(all.to_set())) by {
        assert forall|x: ObjectIdModel| settled.to_set().contains(x) implies all.to_set().contains(x) by {
            let j = choose|j: int| 0 <= j < settled.len() && settled[j] == x;
            assert(all.contains(settled[j]));
        }
    }
    vstd::set_lib::lemma_len_subset(settled.to_set(), all.to_set());
}

/// Whether `x` is listed.
pub open spec fn listed(nodes: Seq<ObjectId>, x: ObjectIdModel) -> bool {
    exists|j: int| 0 <= j < nodes.len() && #[trigger] nodes[j]@ == x
}

/// A recorded predecessor of `x`, if any, is settled before `x` and linked
/// to it.
pub open spec fn predecessor_ok(
    specs: Seq<NavigationReachSpec>,
    radius: i32,
    height: i32,
    previous: Seq<(ObjectId, ObjectId)>,
    settled: Seq<ObjectIdModel>,
    x: ObjectIdModel,
) -> bool {
    match lookup(previous, x) {
        Some(u) => settled.contains(u@) && link(specs, radius, height, u@, x) && (settled.contains(x)
            ==> settled.index_of(u@) < settled.index_of(x)),
        None => true,
    }
}

/// A recorded distance, if any, is not negative.
pub open spec fn distance_ok(distances: Seq<(ObjectId, i32)>, x: ObjectIdModel) -> bool {
    match lookup(distances, x) {
        Some(d) => d >= 0,
        None => true,
    }
}

/// The bookkeeping of the search: every point waiting has a distance, is
/// not settled, and is reachable at all; waiting points are listed once;
/// settled points are no farther than any waiting one; every recorded
/// predecessor is settled before its successor and linked to it.
pub open spec fn search_ok(
    specs: Seq<NavigationReachSpec>,
    radius: i32,
    height: i32,
    start: ObjectIdModel,
    distances: Seq<(ObjectId, i32)>,
    previous: Seq<(ObjectId, ObjectId)>,
    pending: Seq<ObjectId>,
    settled: Seq<ObjectIdModel>,
) -> bool {
    &&& forall|j: int|
        0 <= j < pending.len() ==> lookup(distances, #[trigger] pending[j]@) is Some
            && !settled.contains(pending[j]@) && universe(specs, start).contains(pending[j]@)
    &&& forall|i: int, j: int| 0 <= i < j < pending.len() ==> pending[i]@ != pending[j]@
    &&& settled.no_duplicates()
    &&& forall|j: int| 0 <= j < settled.len() ==> universe(specs, start).contains(#[trigger] settled[j])
    &&& settled.len() <= universe(specs, start).len()
    &&& forall|j: int| 0 <= j < settled.len() ==> lookup(distances, #[trigger] settled[j]) is Some
    &&& forall|x: ObjectIdModel| #[trigger] distance_ok(distances, x)
    &&& forall|i: int, j: int|
        0 <= i < settled.len() && 0 <= j < pending.len() ==> lookup(distances, #[trigger] settled[i])->0
            <= lookup(distances, #[trigger] pending[j]@)->0
    &&& forall|x: ObjectIdModel| #[trigger] predecessor_ok(specs, radius, height, previous, settled, x)
}

/// The bookkeeping while the links of the settled point `current` at
/// `distance` are relaxed: as for the search, with every settled point no
/// farther than `current` and every waiting one no nearer.
pub open spec fn relax_ok(
    specs: Seq<NavigationReachSpec>,
    radius: i32,
    height: i32,
    start: ObjectIdModel,
    distances: Seq<(ObjectId, i32)>,
    previous: Seq<(ObjectId, ObjectId)>,
    pending: Seq<ObjectId>,
    settled: Seq<ObjectIdModel>,
    current: ObjectIdModel,
    distance: i32,
) -> bool {
    &&& settled.contains(current)
    &&& lookup(distances, current) == Some(distance)
    &&& forall|j: int|
        0 <= j < pending.len() ==> lookup(distances, #[trigger] pending[j]@) is Some
            && !settled.contains(pending[j]@) && universe(specs, start).contains(pending[j]@)
            && lookup(distances, pending[j]@)->0 >= distance
    &&& forall|i: int, j: int| 0 <= i < j < pending.len() ==> pending[i]@ != pending[j]@
    &&& settled.no_duplicates()
    &&& forall|j: int| 0 <= j < settled.len() ==> universe(specs, start).contains(#[trigger] settled[j])
    &&& settled.len() <= universe(specs, start).len()
    &&& forall|j: int|
        0 <= j < settled.len() ==> lookup(distances, #[trigger] settled[j]) is Some && lookup(
            distances,
            settled[j],
        )->0 <= distance
    &&& forall|x: ObjectIdModel| #[trigger] distance_ok(distances, x)
    &&& forall|x: ObjectIdModel| #[trigger] predecessor_ok(specs, radius, height, previous, settled, x)
}

/// Whether usable links join `start` to `target`.
pub open spec fn joined(
    specs: Seq<NavigationReachSpec>,
    radius: i32,
    height: i32,
    start: ObjectIdModel,
    target: ObjectIdModel,
) -> bool {
    exists|path: Seq<ObjectIdModel>|
        path.len() >= 1 && path[0] == start && #[trigger] path.last() == target && linked(
            specs,
            radius,
            height,
            path,
        )
}

/// Whether a point has a recorded distance.
pub open spec fn known(distances: Seq<(ObjectId, i32)>, x: ObjectIdModel) -> bool {
    lookup(distances, x) is Some
}

/// What the search keeps of reachability: the start is at distance 0; every
/// other point with a distance has a predecessor; every point with a
/// distance is settled, waiting or the target; the target is never settled;
/// and every usable link out of a settled point, except the links of `open`
/// from index `from` on, leads to a point with a distance no greater than
/// the link makes it.
pub open spec fn reach_ok(
    specs: Seq<NavigationReachSpec>,
    radius: i32,
    height: i32,
    start: ObjectIdModel,
    target: ObjectIdModel,
    distances: Seq<(ObjectId, i32)>,
    previous: Seq<(ObjectId, ObjectId)>,
    pending: Seq<ObjectId>,
    settled: Seq<ObjectIdModel>,
    open: ObjectIdModel,
    from: int,
) -> bool {
    &&& lookup(distances, start) == Some(0i32)
    &&& forall|x: ObjectIdModel|
        #[trigger] known(distances, x) && x != start ==> lookup(previous, x) is Some
    &&& forall|x: ObjectIdModel|
        #[trigger] known(distances, x) ==> settled.contains(x) || listed(pending, x) || x == target
    &&& !settled.contains(target)
    &&& forall|i: int|
        0 <= i < specs.len() && usable(specs[i], radius, height) && settled.contains(
            #[trigger] specs[i].start@,
        ) && (specs[i].start@ != open || i < from) ==> known(distances, specs[i].end@) && lookup(
            distances,
            specs[i].end@,
        )->0 <= capped(lookup(distances, specs[i].start@)->0 + weight(specs[i]))
}

/// Every point with a distance is settled or waiting.
pub open spec fn accounted(distances: Seq<(ObjectId, i32)>, pending: Seq<ObjectId>, settled: Seq<ObjectIdModel>) -> bool {
    forall|x: ObjectIdModel| #[trigger] known(distances, x) ==> settled.contains(x) || listed(pending, x)
}

/// With the search done and nothing waiting, a target joined to the start
/// by usable links has a distance.
proof fn lemma_reached(
    specs: Seq<NavigationReachSpec>,
    radius: i32,
    height: i32,
    start: ObjectIdModel,
    target: ObjectIdModel,
    distances: Seq<(ObjectId, i32)>,
    previous: Seq<(ObjectId, ObjectId)>,
    settled: Seq<ObjectIdModel>,
    open: ObjectIdModel,
    path: Seq<ObjectIdModel>,
    k: int,
)
    requires
        reach_ok(specs, radius, height, start, target, distances, previous, Seq::empty(), settled, open, specs.len() as int),
        path.len() >= 1,
        path[0] == start,
        path.last() == target,
        linked(specs, radius, height, path),
        0 <= k < path.len(),
    ensures
        known(distances, target) || known(distances, path[k]),
    decreases k,
{
    if k == 0 {
        assert(known(distances, start));
    } else {
        lemma_reached(specs, radius, height, start, target, distances, previous, settled, open, path, k - 1);
        if !known(distances, target) {
            let x = path[k - 1];
            assert(known(distances, x));
            assert(settled.contains(x) || listed(Seq::<ObjectId>::empty(), x) || x == target);
            assert(settled.contains(x));
            assert(link(specs, radius, height, path[k - 1], path[k - 1 + 1]));
            let i = choose|i: int|
                0 <= i < specs.len() && #[trigger] specs[i].start@ == path[k - 1] && specs[i].end@
                    == path[k] && usable(specs[i], radius, height);
            assert(known(distances, specs[i].end@));
        }
    }
}

/// The length a link adds to a way: its distance, or 0 when negative.
pub open spec fn weight(spec: NavigationReachSpec) -> int {
    if spec.distance > 0 {
        spec.distance as int
    } else {
        0
    }
}

/// A sum capped at `i32::MAX`.
pub open spec fn capped(d: int) -> int {
    if d > i32::MAX {
        i32::MAX as int
    } else {
        d
    }
}

/// The length reached by following the links `route` (indices into
/// `specs`) after length `d`, adding each link's weight with the sum capped
/// at `i32::MAX`.
pub open spec fn extend(specs: Seq<NavigationReachSpec>, d: int, route: Seq<int>) -> int
    decreases route.len(),
{
    if route.len() == 0 {
        d
    } else {
        extend(specs, capped(d + weight(specs[route[0]])), route.subrange(1, route.len() as int))
    }
}

/// The length of a way: its links' weights summed, capped at `i32::MAX`.
pub open spec fn route_length(specs: Seq<NavigationReachSpec>, route: Seq<int>) -> int {
    extend(specs, 0, route)
}

/// Whether the links `route` (indices into `specs`) are usable and lead,
/// one after another, from `from` to `to`; the empty way leads from a point
/// to itself.
pub open spec fn chain(
    specs: Seq<NavigationReachSpec>,
    radius: i32,
    height: i32,
    from: ObjectIdModel,
    to: ObjectIdModel,
    route: Seq<int>,
) -> bool {
    &&& forall|k: int|
        0 <= k < route.len() ==> 0 <= #[trigger] route[k] < specs.len() && usable(specs[route[k]], radius, height)
    &&& forall|k: int| 0 <= k < route.len() - 1 ==> specs[#[trigger] route[k]].end@ == specs[route[k + 1]].start@
    &&& route.len() == 0 ==> from == to
    &&& route.len() > 0 ==> specs[route[0]].start@ == from && specs[route.last()].end@ == to
}

/// The point reached after the first `j` links of a way from `start`.
pub open spec fn node(specs: Seq<NavigationReachSpec>, start: ObjectIdModel, route: Seq<int>, j: int) -> ObjectIdModel {
    if j == 0 {
        start
    } else {
        specs[route[j - 1]].end@
    }
}

proof fn lemma_extend_push(specs: Seq<NavigationReachSpec>, d: int, route: Seq<int>, i: int)
    ensures
        extend(specs, d, route.push(i)) == capped(extend(specs, d, route) + weight(specs[i])),
    decreases route.len(),
{
    let r = route.push(i);
    if route.len() == 0 {
        assert(r.subrange(1, r.len() as int) =~= Seq::<int>::empty());
        assert(r[0] == i);
        assert(extend(specs, capped(d + weight(specs[i])), Seq::<int>::empty()) == capped(d + weight(specs[i])));
    } else {
        let rest = route.subrange(1, route.len() as int);
        assert(r.subrange(1, r.len() as int) =~= rest.push(i));
        assert(r[0] == route[0]);
        lemma_extend_push(specs, capped(d + weight(specs[route[0]])), rest, i);
    }
}

proof fn lemma_extend_bounds(specs: Seq<NavigationReachSpec>, d: int, route: Seq<int>)
    requires
        d <= i32::MAX,
    ensures
        d <= extend(specs, d, route) <= i32::MAX,
    decreases route.len(),
{
    if route.len() > 0 {
        lemma_extend_bounds(specs, capped(d + weight(specs[route[0]])), route.subrange(1, route.len() as int));
    }
}

proof fn lemma_extend_monotone(specs: Seq<NavigationReachSpec>, d1: int, d2: int, route: Seq<int>)
    requires
        d1 <= d2 <= i32::MAX,
    ensures
        extend(specs, d1, route) <= extend(specs, d2, route),
    decreases route.len(),
{
    if route.len() > 0 {
        let w = weight(specs[route[0]]);
        lemma_extend_monotone(specs, capped(d1 + w), capped(d2 + w), route.subrange(1, route.len() as int));
    }
}

proof fn lemma_extend_split(specs: Seq<NavigationReachSpec>, d: int, route: Seq<int>, j: int)
    requires
        0 <= j <= route.len(),
    ensures
        extend(specs, d, route) == extend(specs, extend(specs, d, route.take(j)), route.skip(j)),
    decreases route.len(),
{
    if j == 0 {
        assert(route.take(0) =~= Seq::<int>::empty());
        assert(route.skip(0) =~= route);
    } else {
        let rest = route.subrange(1, route.len() as int);
        lemma_extend_split(specs, capped(d + weight(specs[route[0]])), rest, j - 1);
        assert(route.take(j).subrange(1, j) =~= rest.take(j - 1));
        assert(route.skip(j) =~= rest.skip(j - 1));
    }
}

proof fn lemma_chain_prefix(
    specs: Seq<NavigationReachSpec>,
    radius: i32,
    height: i32,
    from: ObjectIdModel,
    to: ObjectIdModel,
    route: Seq<int>,
    j: int,
)
    requires
        chain(specs, radius, height, from, to, route),
        0 <= j <= route.len(),
    ensures
        chain(specs, radius, height, from, node(specs, from, route, j), route.take(j)),
        j < route.len() ==> specs[route[j]].start@ == node(specs, from, route, j),
        j == route.len() ==> node(specs, from, route, j) == to,
{
    let t = route.take(j);
    assert forall|k: int| 0 <= k < t.len() implies 0 <= #[trigger] t[k] < specs.len() && usable(specs[t[k]], radius, height) by {
        assert(t[k] == route[k]);
    }
    assert forall|k: int| 0 <= k < t.len() - 1 implies specs[#[trigger] t[k]].end@ == specs[t[k + 1]].start@ by {
        assert(t[k] == route[k] && t[k + 1] == route[k + 1]);
    }
    if j > 0 && j < route.len() {
        assert(specs[route[j - 1]].end@ == specs[route[j]].start@);
    }
}

proof fn lemma_chain_push(
    specs: Seq<NavigationReachSpec>,
    radius: i32,
    height: i32,
    from: ObjectIdModel,
    to: ObjectIdModel,
    route: Seq<int>,
    i: int,
)
    requires
        chain(specs, radius, height, from, to, route),
        0 <= i < specs.len(),
        usable(specs[i], radius, height),
        specs[i].start@ == to,
    ensures
        chain(specs, radius, height, from, specs[i].end@, route.push(i)),
{
    let r = route.push(i);
    assert forall|k: int| 0 <= k < r.len() implies 0 <= #[trigger] r[k] < specs.len() && usable(specs[r[k]], radius, height) by {
        if k < route.len() {
            assert(r[k] == route[k]);
        }
    }
    assert forall|k: int| 0 <= k < r.len() - 1 implies specs[#[trigger] r[k]].end@ == specs[r[k + 1]].start@ by {
        assert(r[k] == route[k]);
        if k + 1 < route.len() {
            assert(r[k + 1] == route[k + 1]);
        }
    }
}

proof fn lemma_chain_prepend(
    specs: Seq<NavigationReachSpec>,
    radius: i32,
    height: i32,
    from: ObjectIdModel,
    to: ObjectIdModel,
    route: Seq<int>,
    i: int,
)
    requires
        chain(specs, radius, height, specs[i].end@, to, route),
        0 <= i < specs.len(),
        usable(specs[i], radius, height),
        specs[i].start@ == from,
    ensures
        chain(specs, radius, height, from, to, seq![i] + route),
        extend(specs, 0, seq![i] + route) == extend(specs, capped(weight(specs[i])), route),
{
    let r = seq![i] + route;
    assert forall|k: int| 0 <= k < r.len() implies 0 <= #[trigger] r[k] < specs.len() && usable(specs[r[k]], radius, height) by {
        if k > 0 {
            assert(r[k] == route[k - 1]);
        }
    }
    assert forall|k: int| 0 <= k < r.len() - 1 implies specs[#[trigger] r[k]].end@ == specs[r[k + 1]].start@ by {
        assert(r[k + 1] == route[k]);
        if k > 0 {
            assert(r[k] == route[k - 1]);
        }
    }
    assert(r.subrange(1, r.len() as int) =~= route);
    if route.len() > 0 {
        assert(r.last() == route.last());
    }
}

/// Whether a way of length `d` leads from `start` to `x`.
pub open spec fn achievable(
    specs: Seq<NavigationReachSpec>,
    radius: i32,
    height: i32,
    start: ObjectIdModel,
    x: ObjectIdModel,
    d: int,
) -> bool {
    exists|route: Seq<int>| #[trigger] chain(specs, radius, height, start, x, route) && route_length(specs, route) == d
}

/// Whether no way from `start` to `x` is shorter than `d`.
pub open spec fn shortest(
    specs: Seq<NavigationReachSpec>,
    radius: i32,
    height: i32,
    start: ObjectIdModel,
    x: ObjectIdModel,
    d: int,
) -> bool {
    forall|route: Seq<int>| #[trigger] chain(specs, radius, height, start, x, route) ==> d <= route_length(specs, route)
}

/// A recorded predecessor of `x` has a distance, and a usable link from it
/// to `x` makes the distance of `x`.
pub open spec fn step_ok(
    specs: Seq<NavigationReachSpec>,
    radius: i32,
    height: i32,
    distances: Seq<(ObjectId, i32)>,
    previous: Seq<(ObjectId, ObjectId)>,
    x: ObjectIdModel,
) -> bool {
    match lookup(previous, x) {
        Some(u) => known(distances, u@) && known(distances, x) && exists|i: int|
            0 <= i < specs.len() && #[trigger] specs[i].start@ == u@ && specs[i].end@ == x && usable(
                specs[i],
                radius,
                height,
            ) && lookup(distances, x)->0 == capped(lookup(distances, u@)->0 + weight(specs[i])),
        None => true,
    }
}

/// What the search keeps of lengths: every distance is the length of a
/// way from the start, settled points are at their shortest, and recorded
/// predecessors make the distances.
pub open spec fn lengths_ok(
    specs: Seq<NavigationReachSpec>,
    radius: i32,
    height: i32,
    start: ObjectIdModel,
    distances: Seq<(ObjectId, i32)>,
    previous: Seq<(ObjectId, ObjectId)>,
    settled: Seq<ObjectIdModel>,
) -> bool {
    &&& forall|x: ObjectIdModel|
        #[trigger] known(distances, x) ==> achievable(specs, radius, height, start, x, lookup(distances, x)->0 as int)
    &&& forall|j: int|
        0 <= j < settled.len() ==> shortest(
            specs,
            radius,
            height,
            start,
            #[trigger] settled[j],
            lookup(distances, settled[j])->0 as int,
        )
    &&& forall|x: ObjectIdModel| #[trigger] step_ok(specs, radius, height, distances, previous, x)
}

proof fn lemma_route_bound(
    specs: Seq<NavigationReachSpec>,
    radius: i32,
    height: i32,
    start: ObjectIdModel,
    target: ObjectIdModel,
    distances: Seq<(ObjectId, i32)>,
    previous: Seq<(ObjectId, ObjectId)>,
    pending: Seq<ObjectId>,
    settled: Seq<ObjectIdModel>,
    x: ObjectIdModel,
    route: Seq<int>,
    j: int,
)
    requires
        reach_ok(specs, radius, height, start, target, distances, previous, pending, settled, start, specs.len() as int),
        accounted(distances, pending, settled),
        lengths_ok(specs, radius, height, start, distances, previous, settled),
        forall|y: ObjectIdModel| #[trigger] distance_ok(distances, y),
        chain(specs, radius, height, start, x, route),
        0 <= j <= route.len(),
    ensures
        (exists|j2: int|
            0 <= j2 <= j && #[trigger] listed(pending, node(specs, start, route, j2)) && lookup(
                distances,
                node(specs, start, route, j2),
            )->0 <= extend(specs, 0, route.take(j2))) || settled.contains(node(specs, start, route, j)),
    decreases j,
{
    if j == 0 {
        assert(known(distances, start));
        assert(route.take(0) =~= Seq::<int>::empty());
        if listed(pending, node(specs, start, route, 0)) {
        }
    } else {
        lemma_route_bound(specs, radius, height, start, target, distances, previous, pending, settled, x, route, j - 1);
        if !(exists|j2: int|
            0 <= j2 <= j - 1 && #[trigger] listed(pending, node(specs, start, route, j2)) && lookup(
                distances,
                node(specs, start, route, j2),
            )->0 <= extend(specs, 0, route.take(j2))) {
            let u = node(specs, start, route, j - 1);
            let v = node(specs, start, route, j);
            let i = route[j - 1];
            assert(settled.contains(u));
            lemma_chain_prefix(specs, radius, height, start, x, route, j - 1);
            assert(0 <= i < specs.len() && usable(specs[i], radius, height)) by {
                assert(0 <= route[j - 1] < specs.len());
            }
            assert(specs[i].start@ == u);
            assert(specs[i].end@ == v);
            assert(known(distances, v) && lookup(distances, v)->0 <= capped(lookup(distances, u)->0 + weight(specs[i])));
            let k = choose|k: int| 0 <= k < settled.len() && settled[k] == u;
            assert(shortest(specs, radius, height, start, settled[k], lookup(distances, settled[k])->0 as int));
            assert(lookup(distances, u)->0 <= extend(specs, 0, route.take(j - 1)));
            assert(route.take(j) =~= route.take(j - 1).push(i));
            lemma_extend_push(specs, 0, route.take(j - 1), i);
            assert(lookup(distances, v)->0 <= extend(specs, 0, route.take(j)));
            if listed(pending, v) {
                assert(listed(pending, node(specs, start, route, j)));
            }
        }
    }
}

/// The waiting point nearest the start is at its shortest.
proof fn lemma_popped_shortest(
    specs: Seq<NavigationReachSpec>,
    radius: i32,
    height: i32,
    start: ObjectIdModel,
    target: ObjectIdModel,
    distances: Seq<(ObjectId, i32)>,
    previous: Seq<(ObjectId, ObjectId)>,
    pending: Seq<ObjectId>,
    settled: Seq<ObjectIdModel>,
    x: ObjectIdModel,
    dx: i32,
)
    requires
        reach_ok(specs, radius, height, start, target, distances, previous, pending, settled, start, specs.len() as int),
        accounted(distances, pending, settled),
        lengths_ok(specs, radius, height, start, distances, previous, settled),
        forall|y: ObjectIdModel| #[trigger] distance_ok(distances, y),
        lookup(distances, x) == Some(dx),
        forall|q: int| 0 <= q < pending.len() ==> dx <= lookup(distances, #[trigger] pending[q]@)->0,
        !settled.contains(x),
    ensures
        shortest(specs, radius, height, start, x, dx as int),
{
    assert forall|route: Seq<int>| #[trigger] chain(specs, radius, height, start, x, route) implies dx <= route_length(
        specs,
        route,
    ) by {
        lemma_route_bound(specs, radius, height, start, target, distances, previous, pending, settled, x, route, route.len() as int);
        lemma_chain_prefix(specs, radius, height, start, x, route, route.len() as int);
        let j2 = choose|j2: int|
            0 <= j2 <= route.len() && #[trigger] listed(pending, node(specs, start, route, j2)) && lookup(
                distances,
                node(specs, start, route, j2),
            )->0 <= extend(specs, 0, route.take(j2));
        let q = choose|q: int| 0 <= q < pending.len() && #[trigger] pending[q]@ == node(specs, start, route, j2);
        assert(dx <= lookup(distances, pending[q]@)->0);
        lemma_extend_split(specs, 0, route, j2);
        lemma_extend_bounds(specs, 0, route.take(j2));
        lemma_extend_bounds(specs, extend(specs, 0, route.take(j2)), route.skip(j2));
    }
}

proof fn lemma_index_of(s: Seq<ObjectIdModel>, i: int)
    requires
        s.no_duplicates(),
        0 <= i < s.len(),
    ensures
        s.index_of(s[i]) == i,
{
    assert(s.contains(s[i]));
}

proof fn lemma_index_of_push(s: Seq<ObjectIdModel>, x: ObjectIdModel, y: ObjectIdModel)
    requires
        s.push(y).no_duplicates(),
        s.contains(x),
    ensures
        s.push(y).index_of(x) == s.index_of(x),
        s.push(y).index_of(y) == s.len(),
        s.index_of(x) < s.len(),
{
    let i = choose|i: int| 0 <= i < s.len() && s[i] == x;
    lemma_index_of(s.push(y), i);
    assert forall|a: int, b: int| 0 <= a < b < s.len() implies s[a] != s[b] by {
        assert(s.push(y)[a] == s[a] && s.push(y)[b] == s[b]);
    }
    lemma_index_of(s, i);
    lemma_index_of(s.push(y), s.len() as int);
}

/// The next point to move to on the way from `start` to `target`, for an
/// actor of the given collision size: `target` itself when already there;
/// otherwise, when the search reaches `target`, the first point of the way
/// it found, joined to `start` and on to `target` by usable links. The
/// search reaches `target` whenever usable links join it to `start`, and
/// the way it finds is a shortest one: no way of usable links is shorter,
/// lengths summing each link's distance (0 when negative) capped at
/// `i32::MAX`. Given `i32::MIN` for both sizes, the search ignores the
/// actor's collision size: every link that is not pruned is usable (see
/// `lemma_smallest_size_uses_every_link`).
#[verifier::spinoff_prover]
pub fn next_navigation_step(
    specs: &Vec<NavigationReachSpec>,
    start: &ObjectId,
    target: &ObjectId,
    radius: i32,
    height: i32,
) -> (r: Option<ObjectId>)
    ensures
        start@ == target@ ==> (r matches Some(step) && step@ == target@),
        r matches Some(step) ==> (start@ != target@ ==> exists|path: Seq<ObjectIdModel>|
            path.len() >= 2 && path[0] == start@ && path[1] == step@ && path.last() == target@
                && linked(specs@, radius, height, path)),
        joined(specs@, radius, height, start@, target@) ==> r is Some,
        r matches Some(step) ==> (start@ != target@ ==> exists|route: Seq<int>|
            #[trigger] chain(specs@, radius, height, start@, target@, route) && route.len() >= 1
                && specs@[route[0]].end@ == step@ && shortest(
                specs@,
                radius,
                height,
                start@,
                target@,
                route_length(specs@, route),
            )),
{
    if start.same(target) {
        return Some(target.duplicate());
    }
    let ghost sp = specs@;
    let ghost all = universe(sp, start@);
    let mut distances: Vec<(ObjectId, i32)> = Vec::new();
    let mut previous: Vec<(ObjectId, ObjectId)> = Vec::new();
    let mut pending: Vec<ObjectId> = Vec::new();
    let ghost mut settled: Seq<ObjectIdModel> = Seq::empty();
    assign(&mut distances, start.duplicate(), 0);
    pending.push(start.duplicate());
    proof {
        assert(all[0] == start@);
        assert(pending@[0]@ == start@);
        assert(all.contains(start@));
        assert forall|x: ObjectIdModel| #[trigger] predecessor_ok(sp, radius, height, previous@, settled, x) by {
            assert(previous@.len() == 0);
        }
        assert forall|x: ObjectIdModel| #[trigger] distance_ok(distances@, x) by {
        }
        assert forall|x: ObjectIdModel| #[trigger] known(distances@, x) implies x == start@ by {
            assert(lookup(Seq::<(ObjectId, i32)>::empty(), x) is None);
        }
        assert forall|x: ObjectIdModel| #[trigger] known(distances@, x) implies settled.contains(x) || listed(
            pending@,
            x,
        ) || x == target@ by {
            assert(pending@[0]@ == x);
        }
        assert forall|x: ObjectIdModel| #[trigger] known(distances@, x) implies settled.contains(x) || listed(
            pending@,
            x,
        ) by {
            assert(pending@[0]@ == x);
        }
        assert forall|x: ObjectIdModel| #[trigger] known(distances@, x) implies achievable(
            sp,
            radius,
            height,
            start@,
            x,
            lookup(distances@, x)->0 as int,
        ) by {
            assert(chain(sp, radius, height, start@, start@, Seq::<int>::empty()));
        }
        assert forall|x: ObjectIdModel| #[trigger] step_ok(sp, radius, height, distances@, previous@, x) by {
            assert(lookup(previous@, x) is None);
        }
    }
    while pending.len() > 0
        invariant_except_break
            accounted(distances@, pending@, settled),
        invariant
            sp == specs@,
            all == universe(sp, start@),
            start@ != target@,
            search_ok(sp, radius, height, start@, distances@, previous@, pending@, settled),
            reach_ok(sp, radius, height, start@, target@, distances@, previous@, pending@, settled, start@, sp.len() as int),
            lengths_ok(sp, radius, height, start@, distances@, previous@, settled),
        ensures
            known(distances@, target@) || pending@.len() == 0,
            known(distances@, target@) ==> shortest(
                sp,
                radius,
                height,
                start@,
                target@,
                lookup(distances@, target@)->0 as int,
            ),
        decreases all.len() - settled.len(),
    {
        let mut best: usize = 0;
        let first_at = find_node(&distances, &pending[0]).unwrap();
        let mut best_distance = distances[first_at].1;
        let mut j: usize = 1;
        while j < pending.len()
            invariant
                0 <= best < j <= pending@.len(),
                search_ok(sp, radius, height, start@, distances@, previous@, pending@, settled),
                reach_ok(sp, radius, height, start@, target@, distances@, previous@, pending@, settled, start@, sp.len() as int),
                lengths_ok(sp, radius, height, start@, distances@, previous@, settled),
                accounted(distances@, pending@, settled),
                lookup(distances@, pending@[best as int]@) == Some(best_distance),
                forall|q: int| 0 <= q < j ==> best_distance <= lookup(distances@, #[trigger] pending@[q]@)->0,
            decreases pending@.len() - j,
        {
            let at = find_node(&distances, &pending[j]).unwrap();
            if distances[at].1 < best_distance {
                best = j;
                best_distance = distances[at].1;
            }
            j = j + 1;
        }
        proof {
            lemma_popped_shortest(
                sp,
                radius,
                height,
                start@,
                target@,
                distances@,
                previous@,
                pending@,
                settled,
                pending@[best as int]@,
                best_distance,
            );
        }
        let ghost before = pending@;
        let current = pending.swap_remove(best);
        let distance = best_distance;
        proof {
            assert(current == before[best as int]);
            assert forall|q: int| 0 <= q < pending@.len() implies (#[trigger] pending@[q])@ != current@
                && exists|p: int| 0 <= p < before.len() && p != best && before[p] == pending@[q] by {
                if q == best {
                    assert(pending@[q] == before.last());
                    assert(before.len() - 1 != best);
                    assert(before[before.len() - 1] == pending@[q]);
                } else {
                    assert(pending@[q] == before[q]);
                }
            }
            assert forall|a: int, b: int| 0 <= a < b < pending@.len() implies pending@[a]@ != pending@[b]@ by {
                let pa = choose|p: int| 0 <= p < before.len() && p != best && before[p] == pending@[a];
                let pb = choose|p: int| 0 <= p < before.len() && p != best && before[p] == pending@[b];
                if pa == pb {
                    if a == best {
                        assert(pending@[a] == before.last());
                        assert(pending@[b] == before[b]);
                    } else if b == best {
                        assert(pending@[b] == before.last());
                        assert(pending@[a] == before[a]);
                    } else {
                        assert(pending@[a] == before[a] && pending@[b] == before[b]);
                    }
                }
            }
            assert forall|q: int| 0 <= q < pending@.len() implies lookup(distances@, #[trigger] pending@[q]@) is Some
                && !settled.contains(pending@[q]@) && all.contains(pending@[q]@)
                && lookup(distances@, pending@[q]@)->0 >= distance by {
                let p = choose|p: int| 0 <= p < before.len() && p != best && before[p] == pending@[q];
                assert(before[p]@ == pending@[q]@);
            }
            assert forall|i: int, q: int|
                0 <= i < settled.len() && 0 <= q < pending@.len() implies lookup(distances@, #[trigger] settled[i])->0
                    <= lookup(distances@, #[trigger] pending@[q]@)->0 by {
                let p = choose|p: int| 0 <= p < before.len() && p != best && before[p] == pending@[q];
                assert(before[p]@ == pending@[q]@);
            }
        }
        proof {
            assert forall|x: ObjectIdModel| #[trigger] known(distances@, x) implies settled.contains(x) || listed(
                pending@,
                x,
            ) || x == target@ || x == current@ by {
                if !settled.contains(x) && x != target@ {
                    assert(listed(before, x));
                    let p = choose|p: int| 0 <= p < before.len() && #[trigger] before[p]@ == x;
                    if p != best {
                        if p == before.len() - 1 {
                            assert(pending@[best as int] == before[p]);
                        } else {
                            assert(pending@[p] == before[p]);
                        }
                    }
                }
            }
            assert forall|x: ObjectIdModel| #[trigger] known(distances@, x) implies settled.contains(x) || listed(
                pending@,
                x,
            ) || x == current@ by {
                if !settled.contains(x) {
                    assert(listed(before, x));
                    let p = choose|p: int| 0 <= p < before.len() && #[trigger] before[p]@ == x;
                    if p != best {
                        if p == before.len() - 1 {
                            assert(pending@[best as int] == before[p]);
                        } else {
                            assert(pending@[p] == before[p]);
                        }
                    }
                }
            }
        }
        if current.same(target) {
            proof {
                assert(known(distances@, target@));
            }
            break;
        }
        let ghost old_settled = settled;
        proof {
            assert(before[best as int]@ == current@);
            assert(!settled.contains(current@));
            settled = settled.push(current@);
            assert forall|a: int, b: int| 0 <= a < b < settled.len() implies settled[a] != settled[b] by {
                if b == settled.len() - 1 {
                    assert(old_settled.contains(settled[a]) ==> settled[a] != current@);
                    assert(settled[a] == old_settled[a]);
                } else {
                    assert(settled[a] == old_settled[a] && settled[b] == old_settled[b]);
                }
            }
            assert forall|q: int| 0 <= q < settled.len() implies all.contains(#[trigger] settled[q]) by {
                if q < old_settled.len() {
                    assert(settled[q] == old_settled[q]);
                }
            }
            lemma_settled_bound(settled, all);
            assert forall|q: int| 0 <= q < settled.len() implies lookup(distances@, #[trigger] settled[q]) is Some
                && lookup(distances@, settled[q])->0 <= distance by {
                if q < old_settled.len() {
                    assert(settled[q] == old_settled[q]);
                    assert(lookup(distances@, old_settled[q])->0 <= lookup(distances@, before[best as int]@)->0);
                }
            }
            assert forall|x: ObjectIdModel| #[trigger] predecessor_ok(sp, radius, height, previous@, settled, x) by {
                assert(predecessor_ok(sp, radius, height, previous@, old_settled, x));
                if let Some(u) = lookup(previous@, x) {
                    assert(old_settled.contains(u@));
                    let ku = choose|k: int| 0 <= k < old_settled.len() && old_settled[k] == u@;
                    assert(settled[ku] == u@);
                    lemma_index_of_push(old_settled, u@, current@);
                    if settled.contains(x) && x != current@ {
                        let k = choose|k: int| 0 <= k < settled.len() && settled[k] == x;
                        assert(k < old_settled.len());
                        assert(old_settled[k] == x);
                        lemma_index_of_push(old_settled, x, current@);
                    }
                }
            }
            assert(settled[settled.len() - 1] == current@);
            assert(settled.contains(current@));
            assert(relax_ok(sp, radius, height, start@, distances@, previous@, pending@, settled, current@, distance));
            assert forall|x: ObjectIdModel| #[trigger] known(distances@, x) implies settled.contains(x) || listed(
                pending@,
                x,
            ) || x == target@ by {
                if x == current@ {
                    assert(settled[settled.len() - 1] == x);
                } else if old_settled.contains(x) {
                    let q = choose|q: int| 0 <= q < old_settled.len() && old_settled[q] == x;
                    assert(settled[q] == x);
                }
            }
            assert(!settled.contains(target@)) by {
                if settled.contains(target@) {
                    let q = choose|q: int| 0 <= q < settled.len() && settled[q] == target@;
                    if q < old_settled.len() {
                        assert(old_settled[q] == target@);
                    }
                }
            }
            assert forall|q: int|
                0 <= q < sp.len() && usable(sp[q], radius, height) && settled.contains(#[trigger] sp[q].start@)
                    && (sp[q].start@ != current@ || q < 0) implies known(distances@, sp[q].end@) by {
                let k = choose|k: int| 0 <= k < settled.len() && settled[k] == sp[q].start@;
                if k < old_settled.len() {
                    assert(old_settled[k] == sp[q].start@);
                    assert(old_settled.contains(sp[q].start@));
                }
            }
            assert(reach_ok(sp, radius, height, start@, target@, distances@, previous@, pending@, settled, current@, 0));
            assert forall|q: int| 0 <= q < settled.len() implies shortest(
                sp,
                radius,
                height,
                start@,
                #[trigger] settled[q],
                lookup(distances@, settled[q])->0 as int,
            ) by {
                if q < old_settled.len() {
                    assert(settled[q] == old_settled[q]);
                } else {
                    assert(settled[q] == current@);
                }
            }
            assert(lengths_ok(sp, radius, height, start@, distances@, previous@, settled));
            assert forall|x: ObjectIdModel| #[trigger] known(distances@, x) implies settled.contains(x) || listed(
                pending@,
                x,
            ) by {
                if x == current@ {
                    assert(settled[settled.len() - 1] == x);
                } else if old_settled.contains(x) {
                    let q = choose|q: int| 0 <= q < old_settled.len() && old_settled[q] == x;
                    assert(settled[q] == x);
                }
            }
        }
        let mut i: usize = 0;
        while i < specs.len()
            invariant
                sp == specs@,
                all == universe(sp, start@),
                0 <= i <= sp.len(),
                relax_ok(sp, radius, height, start@, distances@, previous@, pending@, settled, current@, distance),
                reach_ok(sp, radius, height, start@, target@, distances@, previous@, pending@, settled, current@, i as int),
                current@ != target@,
                lengths_ok(sp, radius, height, start@, distances@, previous@, settled),
                accounted(distances@, pending@, settled),
            decreases sp.len() - i,
        {
            let spec = &specs[i];
            if spec.start.same(&current) && !spec.pruned && spec.collision_radius >= radius
                && spec.collision_height >= height {
                let w: i32 = if spec.distance > 0 {
                    spec.distance
                } else {
                    0
                };
                let candidate: i32 = if distance > i32::MAX - w {
                    i32::MAX
                } else {
                    distance + w
                };
                let found_at = find_node(&distances, &spec.end);
                let skip = match found_at {
                    Some(at) => distances[at].1 <= candidate,
                    None => false,
                };
                proof {
                    assert(candidate >= 0) by {
                        assert(distance_ok(distances@, current@));
                    }
                }
                if !skip {
                    let ghost end = spec.end@;
                    proof {
                        assert(all[i + 1] == end) by {
                            assert(all[i + 1] == sp[i as int].end@);
                        }
                        if settled.contains(end) {
                            let q = choose|q: int| 0 <= q < settled.len() && settled[q] == end;
                            assert(lookup(distances@, settled[q])->0 <= distance);
                        }
                        assert(!settled.contains(end));
                        assert(link(sp, radius, height, current@, end)) by {
                            assert(sp[i as int].start@ == current@);
                        }
                    }
                    let ghost d_before = distances@;
                    let ghost p_before = previous@;
                    proof {
                        assert(distance_ok(d_before, current@));
                        assert(candidate >= 0);
                    }
                    assign(&mut distances, spec.end.duplicate(), candidate);
                    assign(&mut previous, spec.end.duplicate(), current.duplicate());
                    let ghost pend0 = pending@;
                    let listed_already = lists_node(&pending, &spec.end);
                    if !listed_already {
                        let ghost pend_before = pending@;
                        pending.push(spec.end.duplicate());
                        proof {
                            assert forall|a: int, b: int| 0 <= a < b < pending@.len() implies pending@[a]@ != pending@[b]@ by {
                                if b == pend_before.len() {
                                    assert(pending@[a] == pend_before[a]);
                                } else {
                                    assert(pending@[a] == pend_before[a] && pending@[b] == pend_before[b]);
                                }
                            }
                        }
                    }
                    proof {
                        assert forall|q: int|
                            0 <= q < pending@.len() implies lookup(distances@, #[trigger] pending@[q]@) is Some
                                && !settled.contains(pending@[q]@) && all.contains(pending@[q]@)
                                && lookup(distances@, pending@[q]@)->0 >= distance by {
                            if pending@[q]@ != end {
                                assert(lookup(distances@, pending@[q]@) == lookup(d_before, pending@[q]@));
                            }
                        }
                        assert forall|q: int| 0 <= q < settled.len() implies lookup(distances@, #[trigger] settled[q]) is Some
                            && lookup(distances@, settled[q])->0 <= distance by {
                            assert(settled[q] != end);
                            assert(lookup(distances@, settled[q]) == lookup(d_before, settled[q]));
                        }
                        assert forall|x: ObjectIdModel| #[trigger] distance_ok(distances@, x) by {
                            if x != end {
                                assert(lookup(distances@, x) == lookup(d_before, x));
                                assert(distance_ok(d_before, x));
                            }
                        }
                        assert forall|x: ObjectIdModel| #[trigger] predecessor_ok(sp, radius, height, previous@, settled, x) by {
                            if x != end {
                                assert(lookup(previous@, x) == lookup(p_before, x));
                                assert(predecessor_ok(sp, radius, height, p_before, settled, x));
                            }
                        }
                        assert(lookup(distances@, current@) == Some(distance)) by {
                            assert(current@ != end);
                        }
                        assert(end != start@) by {
                            if end == start@ {
                                assert(lookup(d_before, start@) == Some(0i32));
                                assert(found_at is Some);
                            }
                        }
                        assert(lookup(distances@, start@) == Some(0i32));
                        assert forall|x: ObjectIdModel| #[trigger] known(distances@, x) && x != start@ implies lookup(
                            previous@,
                            x,
                        ) is Some by {
                            if x != end {
                                assert(lookup(distances@, x) == lookup(d_before, x));
                                assert(lookup(previous@, x) == lookup(p_before, x));
                                assert(known(d_before, x));
                            }
                        }
                        assert forall|x: ObjectIdModel| #[trigger] known(distances@, x) implies settled.contains(x)
                            || listed(pending@, x) || x == target@ by {
                            if x == end {
                                if !listed_already {
                                    assert(pending@[pending@.len() - 1]@ == end);
                                }
                            } else {
                                assert(lookup(distances@, x) == lookup(d_before, x));
                                assert(known(d_before, x));
                                if listed(pend0, x) {
                                    let j = choose|j: int| 0 <= j < pend0.len() && #[trigger] pend0[j]@ == x;
                                    assert(pending@[j] == pend0[j]);
                                }
                            }
                        }
                        assert forall|x: ObjectIdModel| #[trigger] known(distances@, x) implies achievable(
                            sp,
                            radius,
                            height,
                            start@,
                            x,
                            lookup(distances@, x)->0 as int,
                        ) by {
                            if x == end {
                                assert(known(d_before, current@));
                                assert(achievable(sp, radius, height, start@, current@, distance as int));
                                let route = choose|route: Seq<int>|
                                    #[trigger] chain(sp, radius, height, start@, current@, route) && route_length(
                                        sp,
                                        route,
                                    ) == distance as int;
                                lemma_chain_push(sp, radius, height, start@, current@, route, i as int);
                                lemma_extend_push(sp, 0, route, i as int);
                                assert(chain(sp, radius, height, start@, end, route.push(i as int)));
                            } else {
                                assert(lookup(distances@, x) == lookup(d_before, x));
                                assert(known(d_before, x));
                            }
                        }
                        assert forall|q: int| 0 <= q < settled.len() implies shortest(
                            sp,
                            radius,
                            height,
                            start@,
                            #[trigger] settled[q],
                            lookup(distances@, settled[q])->0 as int,
                        ) by {
                            assert(settled[q] != end);
                            assert(lookup(distances@, settled[q]) == lookup(d_before, settled[q]));
                        }
                        assert forall|x: ObjectIdModel| #[trigger] step_ok(sp, radius, height, distances@, previous@, x) by {
                            if x == end {
                                assert(sp[i as int].start@ == current@);
                                assert(lookup(previous@, x) matches Some(u) && u@ == current@);
                                assert(lookup(distances@, end) == Some(candidate));
                                assert(lookup(distances@, current@) == Some(distance));
                                assert(usable(sp[i as int], radius, height));
                            } else {
                                assert(lookup(previous@, x) == lookup(p_before, x));
                                assert(step_ok(sp, radius, height, d_before, p_before, x));
                                assert(predecessor_ok(sp, radius, height, p_before, settled, x));
                                if let Some(u) = lookup(p_before, x) {
                                    assert(u@ != end);
                                    assert(lookup(distances@, u@) == lookup(d_before, u@));
                                    assert(lookup(distances@, x) == lookup(d_before, x));
                                }
                            }
                        }
                        assert forall|x: ObjectIdModel| #[trigger] known(distances@, x) implies settled.contains(x)
                            || listed(pending@, x) by {
                            if x == end {
                                if !listed_already {
                                    assert(pending@[pending@.len() - 1]@ == end);
                                }
                            } else {
                                assert(lookup(distances@, x) == lookup(d_before, x));
                                assert(known(d_before, x));
                                if listed(pend0, x) {
                                    let j = choose|j: int| 0 <= j < pend0.len() && #[trigger] pend0[j]@ == x;
                                    assert(pending@[j] == pend0[j]);
                                }
                            }
                        }
                        assert forall|q: int|
                            0 <= q < sp.len() && usable(sp[q], radius, height) && settled.contains(
                                #[trigger] sp[q].start@,
                            ) && (sp[q].start@ != current@ || q < i + 1) implies known(distances@, sp[q].end@) by {
                            if q != i {
                                assert(known(d_before, sp[q].end@));
                                if sp[q].end@ != end {
                                    assert(lookup(distances@, sp[q].end@) == lookup(d_before, sp[q].end@));
                                }
                            }
                        }
                    }
                } else {
                    proof {
                        assert(known(distances@, sp[i as int].end@)) by {
                            assert(found_at is Some);
                        }
                    }
                }
            }
            proof {
                assert forall|q: int|
                    0 <= q < sp.len() && usable(sp[q], radius, height) && settled.contains(#[trigger] sp[q].start@)
                        && (sp[q].start@ != current@ || q < i + 1) implies known(distances@, sp[q].end@) by {
                    if q == i && sp[q].start@ == current@ {
                        assert(sp[q] == specs@[i as int]);
                    }
                }
            }
            i = i + 1;
        }
        proof {
            assert forall|q: int|
                0 <= q < sp.len() && usable(sp[q], radius, height) && settled.contains(#[trigger] sp[q].start@)
                    && (sp[q].start@ != start@ || q < sp.len()) implies known(distances@, sp[q].end@) by {
            }
        }
        proof {
            assert forall|a: int, q: int|
                0 <= a < settled.len() && 0 <= q < pending@.len() implies lookup(distances@, #[trigger] settled[a])->0
                    <= lookup(distances@, #[trigger] pending@[q]@)->0 by {
            }
        }
    }
    proof {
        if joined(sp, radius, height, start@, target@) && !known(distances@, target@) {
            let path = choose|path: Seq<ObjectIdModel>|
                path.len() >= 1 && path[0] == start@ && #[trigger] path.last() == target@ && linked(
                    sp,
                    radius,
                    height,
                    path,
                );
            assert(pending@ =~= Seq::<ObjectId>::empty());
            lemma_reached(sp, radius, height, start@, target@, distances@, previous@, settled, start@, path, path.len() - 1);
        }
    }
    let mut step = target.duplicate();
    let ghost mut path: Seq<ObjectIdModel> = seq![target@];
    let ghost mut rest: Seq<int> = Seq::empty();
    loop
        invariant
            lengths_ok(sp, radius, height, start@, distances@, previous@, settled),
            known(distances@, target@) ==> shortest(
                sp,
                radius,
                height,
                start@,
                target@,
                lookup(distances@, target@)->0 as int,
            ),
            step@ != target@ ==> known(distances@, target@),
            known(distances@, target@) ==> chain(sp, radius, height, step@, target@, rest) && extend(
                sp,
                lookup(distances@, step@)->0 as int,
                rest,
            ) == lookup(distances@, target@)->0 as int,
            sp == specs@,
            start@ != target@,
            step@ != start@,
            reach_ok(sp, radius, height, start@, target@, distances@, previous@, pending@, settled, start@, sp.len() as int),
            joined(sp, radius, height, start@, target@) ==> known(distances@, target@),
            known(distances@, target@) ==> known(distances@, step@),
            search_ok(sp, radius, height, start@, distances@, previous@, pending@, settled),
            path.len() >= 1,
            path[0] == step@,
            path.last() == target@,
            linked(sp, radius, height, path),
        decreases (if settled.contains(step@) {
            settled.index_of(step@)
        } else {
            settled.len() as int
        }),
    {
        let at = match find_node(&previous, &step) {
            Some(at) => at,
            None => {
                proof {
                    if known(distances@, target@) {
                        assert(lookup(previous@, step@) is Some);
                    }
                }
                return None;
            },
        };
        let parent = previous[at].1.duplicate();
        let ghost link_at: int;
        proof {
            let u = previous@[at as int].1;
            assert(predecessor_ok(sp, radius, height, previous@, settled, step@));
            assert(settled.contains(u@));
            let k = choose|k: int| 0 <= k < settled.len() && settled[k] == u@;
            lemma_index_of(settled, k);
            assert(known(distances@, settled[k]));
            assert(step_ok(sp, radius, height, distances@, previous@, step@));
            assert(known(distances@, step@));
            assert(known(distances@, target@));
            link_at = choose|i: int|
                0 <= i < sp.len() && #[trigger] sp[i].start@ == u@ && sp[i].end@ == step@ && usable(
                    sp[i],
                    radius,
                    height,
                ) && lookup(distances@, step@)->0 == capped(lookup(distances@, u@)->0 + weight(sp[i]));
            lemma_chain_prepend(sp, radius, height, u@, target@, rest, link_at);
            let longer = seq![link_at] + rest;
            assert(longer.subrange(1, longer.len() as int) =~= rest);
            assert(longer[0] == link_at);
            assert(extend(sp, lookup(distances@, u@)->0 as int, longer) == lookup(distances@, target@)->0 as int);
        }
        if parent.same(start) {
            proof {
                let route = seq![link_at] + rest;
                assert(route[0] == link_at);
                assert(lookup(distances@, start@) == Some(0i32));
                assert(route_length(sp, route) == lookup(distances@, target@)->0 as int);
                assert(chain(sp, radius, height, start@, target@, route));
            }
            proof {
                let full = seq![start@] + path;
                assert(full[1] == path[0]);
                assert(full.last() == path.last());
                assert forall|k: int| 0 <= k < full.len() - 1 implies link(sp, radius, height, #[trigger] full[k], full[k + 1]) by {
                    if k > 0 {
                        assert(full[k] == path[k - 1] && full[k + 1] == path[k]);
                    }
                }
            }
            return Some(step);
        }
        proof {
            let full = seq![parent@] + path;
            assert forall|k: int| 0 <= k < full.len() - 1 implies link(sp, radius, height, #[trigger] full[k], full[k + 1]) by {
                if k > 0 {
                    assert(full[k] == path[k - 1] && full[k + 1] == path[k]);
                }
            }
            path = full;
            rest = seq![link_at] + rest;
        }
        step = parent;
    }
}

} // verus!
