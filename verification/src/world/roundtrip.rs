//! A save restores onto the runtime it was taken from, or onto one that
//! registers the same authored actors.
use vstd::prelude::*;
use crate::order::{lemma_sorted_seq, sorted_seq};
use crate::save::layout::{actor_writable, runtime_canonical, runtime_le, runtime_writable};
use crate::save::wire::finite_bits;
use crate::save::model::{
    ActorModel, CommandModel, ObjectModel, RuntimeModel, SavedActor, SavedAnimationChannel, SavedAnimationCommand,
};
use crate::text::same_ignoring_ascii_case;
use crate::value::{ObjectId, ObjectIdModel};
use crate::world::apply::{animation_of, channel_of, channels_view, channels_written, command_view, command_written, retained_channels, spawned_channels, destroyed_written, disabled_written, event_scope, listed_onto, refs_resolve, restored, revision_entry, spawned_entries, spawned_list, state_entry, state_view, table_view, targets_listed, timer_entry, written, lemma_table_view};
use crate::world::capture::{actor_channels_of, actor_entries, actor_of, actors_of, channels_of, commands_of, disabled_of, kept, lemma_actor_of_identity, saved_game, spawned, table_get, transient};
use crate::world::runtime::{ActorTimer, AnimationChannel, AnimationCommand};
use crate::save::keys::DisabledEntry;
use crate::state::DisabledScope;
use crate::text::lower;
use crate::world::convert::{runtime_package, saved_object_of, Stems};
use crate::world::restore::{authored_of, has_target, lemma_saved_game_reads_back, match_actors, restore_plan_of};
use crate::world::runtime::ScriptRuntime;
use crate::world::transient::{discarded, has_transient};

verus! {

/// Whether an entry of the actor table is an authored actor.
pub open spec fn authored_entry(entry: (usize, ObjectId)) -> bool {
    entry.1@.package != runtime_package()
}

/// The runtime's authored actors can be told apart in a snapshot: each
/// actor index is registered once, no two authored actors save as the same
/// object, and none saves under the run-time package.
pub open spec fn authored_distinct(st: Stems, runtime: ScriptRuntime) -> bool {
    let objects = runtime.actor_objects@;
    &&& forall|i: int, j: int| 0 <= i < j < objects.len() ==> objects[i].0 != objects[j].0
    &&& forall|i: int, j: int|
        0 <= i < j < objects.len() && authored_entry(objects[i]) && authored_entry(objects[j])
            ==> saved_object_of(st, objects[i].1@) != saved_object_of(st, objects[j].1@)
    &&& forall|i: int|
        0 <= i < objects.len() && authored_entry(objects[i]) ==> (saved_object_of(st, objects[i].1@) matches Some(o)
            ==> o.package != runtime_package())
}

/// The saved actors, each restoring onto itself.
pub open spec fn identity_targets(actors: Seq<ActorModel>) -> Seq<(usize, usize)> {
    actors.map_values(|a: ActorModel| (a.actor, a.actor))
}

/// The saved actor of an authored entry.
pub open spec fn entry_actor(st: Stems, runtime: ScriptRuntime, entry: (usize, ObjectId)) -> ActorModel {
    actor_of(st, runtime, entry.0, entry.1)->0
}

/// Whether `a` is the saved actor of an authored entry of `objects`.
pub open spec fn saved_from(st: Stems, runtime: ScriptRuntime, objects: Seq<(usize, ObjectId)>, a: ActorModel) -> bool {
    exists|i: int|
        0 <= i < objects.len() && authored_entry(objects[i]) && actor_of(st, runtime, objects[i].0, objects[i].1)
            == Some(a) && #[trigger] objects[i] == objects[i]
}

/// Every saved actor comes from an authored entry, and every authored entry
/// gives one.
pub(crate) proof fn lemma_actors_of_members(st: Stems, runtime: ScriptRuntime, objects: Seq<(usize, ObjectId)>)
    requires
        actors_of(st, runtime, objects) is Some,
    ensures
        forall|q: int|
            0 <= q < actors_of(st, runtime, objects)->0.len() ==> saved_from(st, 
                runtime,
                objects,
                #[trigger] actors_of(st, runtime, objects)->0[q],
            ),
        forall|i: int|
            0 <= i < objects.len() && authored_entry(#[trigger] objects[i]) ==> actor_of(st, runtime, objects[i].0, objects[i].1) is Some
                && actors_of(st, runtime, objects)->0.contains(entry_actor(st, runtime, objects[i])),
    decreases objects.len(),
{
    if objects.len() > 0 {
        let rest = objects.subrange(1, objects.len() as int);
        lemma_actors_of_members(st, runtime, rest);
        let r = actors_of(st, runtime, rest)->0;
        let l = actors_of(st, runtime, objects)->0;
        assert forall|q: int| 0 <= q < r.len() implies saved_from(st, runtime, objects, #[trigger] r[q]) by {
            assert(saved_from(st, runtime, rest, r[q]));
            let k = choose|k: int|
                0 <= k < rest.len() && authored_entry(rest[k]) && actor_of(st, runtime, rest[k].0, rest[k].1)
                    == Some(r[q]) && #[trigger] rest[k] == rest[k];
            assert(rest[k] == objects[k + 1]);
            assert(objects[k + 1] == objects[k + 1]);
        }
        if authored_entry(objects[0]) {
            let a = actor_of(st, runtime, objects[0].0, objects[0].1)->0;
            assert(l =~= seq![a] + r);
            assert forall|q: int| 0 <= q < l.len() implies saved_from(st, runtime, objects, #[trigger] l[q]) by {
                if q == 0 {
                    assert(objects[0] == objects[0]);
                } else {
                    assert(l[q] == r[q - 1]);
                }
            }
            assert forall|i: int|
                0 <= i < objects.len() && authored_entry(#[trigger] objects[i]) implies actor_of(st, runtime, objects[i].0, objects[i].1) is Some
                    && l.contains(entry_actor(st, runtime, objects[i])) by {
                if i == 0 {
                    assert(l[0] == a);
                } else {
                    assert(rest[i - 1] == objects[i]);
                    assert(r.contains(entry_actor(st, runtime, rest[i - 1])));
                    let q = choose|q: int| 0 <= q < r.len() && r[q] == entry_actor(st, runtime, rest[i - 1]);
                    assert(l[q + 1] == r[q]);
                }
            }
        } else {
            assert(l == r);
            assert forall|i: int|
                0 <= i < objects.len() && authored_entry(#[trigger] objects[i]) implies actor_of(st, runtime, objects[i].0, objects[i].1) is Some
                    && l.contains(entry_actor(st, runtime, objects[i])) by {
                assert(i != 0);
                assert(rest[i - 1] == objects[i]);
            }
        }
    }
}

/// The saved actors have distinct indices and distinct objects.
proof fn lemma_actors_of_distinct(st: Stems, runtime: ScriptRuntime, objects: Seq<(usize, ObjectId)>)
    requires
        actors_of(st, runtime, objects) is Some,
        forall|i: int, j: int| 0 <= i < j < objects.len() ==> objects[i].0 != objects[j].0,
        forall|i: int, j: int|
            0 <= i < j < objects.len() && authored_entry(objects[i]) && authored_entry(objects[j])
                ==> saved_object_of(st, objects[i].1@) != saved_object_of(st, objects[j].1@),
    ensures
        forall|q1: int, q2: int|
            0 <= q1 < q2 < actors_of(st, runtime, objects)->0.len() ==> (#[trigger] actors_of(st, runtime, objects)->0[q1]).actor
                != (#[trigger] actors_of(st, runtime, objects)->0[q2]).actor && actors_of(st, runtime, objects)->0[q1].object
                != actors_of(st, runtime, objects)->0[q2].object,
    decreases objects.len(),
{
    if objects.len() > 0 {
        let rest = objects.subrange(1, objects.len() as int);
        assert forall|i: int, j: int| 0 <= i < j < rest.len() implies rest[i].0 != rest[j].0 by {
            assert(rest[i] == objects[i + 1] && rest[j] == objects[j + 1]);
        }
        assert forall|i: int, j: int|
            0 <= i < j < rest.len() && authored_entry(rest[i]) && authored_entry(rest[j]) implies saved_object_of(st, rest[i].1@)
                != saved_object_of(st, rest[j].1@) by {
            assert(rest[i] == objects[i + 1] && rest[j] == objects[j + 1]);
        }
        lemma_actors_of_distinct(st, runtime, rest);
        lemma_actors_of_members(st, runtime, rest);
        let r = actors_of(st, runtime, rest)->0;
        let l = actors_of(st, runtime, objects)->0;
        if authored_entry(objects[0]) {
            let a = actor_of(st, runtime, objects[0].0, objects[0].1)->0;
            lemma_actor_of_identity(st, runtime, objects[0].0, objects[0].1);
            assert(l =~= seq![a] + r);
            assert forall|q1: int, q2: int| 0 <= q1 < q2 < l.len() implies (#[trigger] l[q1]).actor != (#[trigger] l[q2]).actor
                && l[q1].object != l[q2].object by {
                if q1 == 0 {
                    assert(l[q2] == r[q2 - 1]);
                    assert(saved_from(st, runtime, rest, r[q2 - 1]));
                    let k = choose|k: int|
                        0 <= k < rest.len() && authored_entry(rest[k]) && actor_of(st, runtime, rest[k].0, rest[k].1)
                            == Some(r[q2 - 1]) && #[trigger] rest[k] == rest[k];
                    assert(rest[k] == objects[k + 1]);
                    lemma_actor_of_identity(st, runtime, rest[k].0, rest[k].1);
                    assert(objects[0].0 != objects[k + 1].0);
                    assert(saved_object_of(st, objects[0].1@) != saved_object_of(st, objects[k + 1].1@));
                } else {
                    assert(l[q1] == r[q1 - 1] && l[q2] == r[q2 - 1]);
                }
            }
        } else {
            assert(l == r);
        }
    }
}

/// The authored map holds the saved object of every authored entry, with
/// its actor, and nothing else.
proof fn lemma_authored_of(st: Stems, objects: Seq<(usize, ObjectId)>)
    requires
        forall|i: int|
            0 <= i < objects.len() && authored_entry(objects[i]) ==> saved_object_of(st, objects[i].1@) is Some,
        forall|i: int, j: int|
            0 <= i < j < objects.len() && authored_entry(objects[i]) && authored_entry(objects[j])
                ==> saved_object_of(st, objects[i].1@) != saved_object_of(st, objects[j].1@),
    ensures
        authored_of(st, objects) is Some,
        forall|o: ObjectModel|
            authored_of(st, objects)->0.dom().contains(o) <==> exists|i: int|
                0 <= i < objects.len() && authored_entry(objects[i]) && #[trigger] saved_object_of(st, objects[i].1@)
                    == Some(o),
        forall|i: int|
            0 <= i < objects.len() && authored_entry(objects[i]) ==> authored_of(st, objects)->0[saved_object_of(st, 
                #[trigger] objects[i].1@,
            )->0] == objects[i].0,
    decreases objects.len(),
{
    if objects.len() > 0 {
        let init = objects.drop_last();
        assert forall|i: int, j: int|
            0 <= i < j < init.len() && authored_entry(init[i]) && authored_entry(init[j]) implies saved_object_of(st, init[i].1@)
                != saved_object_of(st, init[j].1@) by {
            assert(init[i] == objects[i] && init[j] == objects[j]);
        }
        assert forall|i: int| 0 <= i < init.len() && authored_entry(init[i]) implies saved_object_of(st, init[i].1@) is Some by {
            assert(init[i] == objects[i]);
        }
        lemma_authored_of(st, init);
        let m = authored_of(st, init)->0;
        let last = objects.last();
        let n = objects.len() - 1;
        assert(objects[n] == last);
        if authored_entry(last) {
            let o = saved_object_of(st, last.1@)->0;
            assert(authored_of(st, objects) == Some(m.insert(o, last.0)));
            assert forall|p: ObjectModel|
                authored_of(st, objects)->0.dom().contains(p) <==> exists|i: int|
                    0 <= i < objects.len() && authored_entry(objects[i]) && #[trigger] saved_object_of(st, objects[i].1@)
                        == Some(p) by {
                if m.dom().contains(p) {
                    let i = choose|i: int|
                        0 <= i < init.len() && authored_entry(init[i]) && #[trigger] saved_object_of(st, init[i].1@)
                            == Some(p);
                    assert(init[i] == objects[i]);
                }
                if exists|i: int|
                    0 <= i < objects.len() && authored_entry(objects[i]) && #[trigger] saved_object_of(st, objects[i].1@)
                        == Some(p) {
                    let i = choose|i: int|
                        0 <= i < objects.len() && authored_entry(objects[i]) && #[trigger] saved_object_of(st, objects[i].1@)
                            == Some(p);
                    if i < n {
                        assert(init[i] == objects[i]);
                    }
                }
            }
            assert forall|i: int|
                0 <= i < objects.len() && authored_entry(objects[i]) implies authored_of(st, objects)->0[saved_object_of(st, 
                    #[trigger] objects[i].1@,
                )->0] == objects[i].0 by {
                if i < n {
                    assert(init[i] == objects[i]);
                    assert(saved_object_of(st, objects[i].1@) != saved_object_of(st, objects[n].1@));
                }
            }
        } else {
            assert(authored_of(st, objects) == Some(m));
            assert forall|p: ObjectModel|
                authored_of(st, objects)->0.dom().contains(p) <==> exists|i: int|
                    0 <= i < objects.len() && authored_entry(objects[i]) && #[trigger] saved_object_of(st, objects[i].1@)
                        == Some(p) by {
                if m.dom().contains(p) {
                    let i = choose|i: int|
                        0 <= i < init.len() && authored_entry(init[i]) && #[trigger] saved_object_of(st, init[i].1@)
                            == Some(p);
                    assert(init[i] == objects[i]);
                }
                if exists|i: int|
                    0 <= i < objects.len() && authored_entry(objects[i]) && #[trigger] saved_object_of(st, objects[i].1@)
                        == Some(p) {
                    let i = choose|i: int|
                        0 <= i < objects.len() && authored_entry(objects[i]) && #[trigger] saved_object_of(st, objects[i].1@)
                            == Some(p);
                    assert(i < n);
                    assert(init[i] == objects[i]);
                }
            }
            assert forall|i: int|
                0 <= i < objects.len() && authored_entry(objects[i]) implies authored_of(st, objects)->0[saved_object_of(st, 
                    #[trigger] objects[i].1@,
                )->0] == objects[i].0 by {
                assert(i < n);
                assert(init[i] == objects[i]);
            }
        }
    } else {
        assert(authored_of(st, objects) == Some(Map::<ObjectModel, usize>::empty()));
    }
}

/// Matching saved actors with distinct indices and objects against a map
/// of exactly their objects, with their classes registered, matches each
/// onto itself and uses the whole map.
proof fn lemma_match_actors(st: Stems, 
    runtime: ScriptRuntime,
    saved: Seq<ActorModel>,
    authored: Map<ObjectModel, usize>,
    targets: Seq<(usize, usize)>,
)
    requires
        forall|q1: int, q2: int|
            0 <= q1 < q2 < saved.len() ==> (#[trigger] saved[q1]).actor != (#[trigger] saved[q2]).actor
                && saved[q1].object != saved[q2].object,
        forall|q: int| 0 <= q < saved.len() ==> !has_target(targets, (#[trigger] saved[q]).actor),
        forall|o: ObjectModel|
            authored.dom().contains(o) <==> exists|q: int| 0 <= q < saved.len() && (#[trigger] saved[q]).object == o,
        forall|q: int| 0 <= q < saved.len() ==> authored[(#[trigger] saved[q]).object] == saved[q].actor,
        forall|q: int|
            0 <= q < saved.len() ==> (table_get(runtime.actor_classes@, (#[trigger] saved[q]).actor) matches Some(class)
                && saved_object_of(st, class@) == Some(saved[q].class)),
    ensures
        match_actors(st, runtime, saved, authored, targets) == Some(
            (Map::<ObjectModel, usize>::empty(), targets + identity_targets(saved)),
        ),
    decreases saved.len(),
{
    if saved.len() == 0 {
        assert(authored =~= Map::<ObjectModel, usize>::empty());
        assert(targets + identity_targets(saved) =~= targets);
    } else {
        let a = saved[0];
        let rest = saved.subrange(1, saved.len() as int);
        assert(authored.dom().contains(a.object));
        let next_targets = targets.push((a.actor, a.actor));
        assert forall|q1: int, q2: int|
            0 <= q1 < q2 < rest.len() implies (#[trigger] rest[q1]).actor != (#[trigger] rest[q2]).actor
                && rest[q1].object != rest[q2].object by {
            assert(rest[q1] == saved[q1 + 1] && rest[q2] == saved[q2 + 1]);
        }
        assert forall|q: int| 0 <= q < rest.len() implies !has_target(next_targets, (#[trigger] rest[q]).actor) by {
            assert(rest[q] == saved[q + 1]);
            assert(!has_target(targets, saved[q + 1].actor));
            if has_target(next_targets, rest[q].actor) {
                let k = choose|k: int| 0 <= k < next_targets.len() && #[trigger] next_targets[k].0 == rest[q].actor;
                if k < targets.len() {
                    assert(next_targets[k] == targets[k]);
                } else {
                    assert(saved[0].actor != saved[q + 1].actor);
                }
            }
        }
        let left = authored.remove(a.object);
        assert forall|o: ObjectModel|
            left.dom().contains(o) <==> exists|q: int| 0 <= q < rest.len() && (#[trigger] rest[q]).object == o by {
            if left.dom().contains(o) {
                let q = choose|q: int| 0 <= q < saved.len() && (#[trigger] saved[q]).object == o;
                assert(q != 0);
                assert(rest[q - 1] == saved[q]);
            }
            if exists|q: int| 0 <= q < rest.len() && (#[trigger] rest[q]).object == o {
                let q = choose|q: int| 0 <= q < rest.len() && (#[trigger] rest[q]).object == o;
                assert(rest[q] == saved[q + 1]);
                assert(saved[0].object != saved[q + 1].object);
            }
        }
        assert forall|q: int| 0 <= q < rest.len() implies left[(#[trigger] rest[q]).object] == rest[q].actor by {
            assert(rest[q] == saved[q + 1]);
            assert(saved[0].object != saved[q + 1].object);
        }
        assert forall|q: int|
            0 <= q < rest.len() implies (table_get(runtime.actor_classes@, (#[trigger] rest[q]).actor) matches Some(class)
                && saved_object_of(st, class@) == Some(rest[q].class)) by {
            assert(rest[q] == saved[q + 1]);
        }
        lemma_match_actors(st, runtime, rest, left, next_targets);
        assert(!has_target(targets, saved[0].actor));
        assert(targets + identity_targets(saved) =~= next_targets + identity_targets(rest));
    }
}

/// Two sequences with the same items contain the same things.
proof fn lemma_same_items<A>(a: Seq<A>, b: Seq<A>, x: A)
    requires
        a.to_multiset() =~= b.to_multiset(),
    ensures
        a.contains(x) <==> b.contains(x),
{
    vstd::seq_lib::to_multiset_contains(a, x);
    vstd::seq_lib::to_multiset_contains(b, x);
}

/// Whether a snapshot's actors are exactly the runtime's authored actors:
/// each authored actor has one, and each belongs to an authored actor.
pub open spec fn lists_authored(runtime: ScriptRuntime, m: RuntimeModel) -> bool {
    let objects = runtime.actor_objects@;
    &&& forall|i: int|
        0 <= i < objects.len() && authored_entry(#[trigger] objects[i]) ==> exists|q: int|
            0 <= q < m.actors.len() && (#[trigger] m.actors[q]).actor == objects[i].0
    &&& forall|q: int|
        0 <= q < m.actors.len() ==> exists|i: int|
            0 <= i < objects.len() && authored_entry(#[trigger] objects[i]) && objects[i].0 == (#[trigger] m.actors[q]).actor
}

/// A save lists exactly the runtime's authored actors, whatever the stems
/// of platform-dependent package paths.
pub proof fn lemma_saved_lists_authored(st: Stems, runtime: ScriptRuntime, map: Seq<char>)
    requires
        saved_game(st, runtime, map) is Some,
    ensures
        lists_authored(runtime, saved_game(st, runtime, map)->0),
{
    let objects = runtime.actor_objects@;
    let l = actors_of(st, runtime, objects)->0;
    let s = saved_game(st, runtime, map)->0.actors;
    lemma_actors_of_members(st, runtime, objects);
    assert(s == sorted_seq::<SavedActor>(l));
    lemma_sorted_seq::<SavedActor>(l);
    assert forall|i: int| 0 <= i < objects.len() && authored_entry(#[trigger] objects[i]) implies exists|q: int|
        0 <= q < s.len() && (#[trigger] s[q]).actor == objects[i].0 by {
        let a = entry_actor(st, runtime, objects[i]);
        lemma_actor_of_identity(st, runtime, objects[i].0, objects[i].1);
        lemma_same_items(s, l, a);
        let q = choose|q: int| 0 <= q < s.len() && s[q] == a;
        assert(s[q].actor == objects[i].0);
    }
    assert forall|q: int| 0 <= q < s.len() implies exists|i: int|
        0 <= i < objects.len() && authored_entry(#[trigger] objects[i]) && objects[i].0 == (#[trigger] s[q]).actor by {
        lemma_same_items(s, l, s[q]);
        let p = choose|p: int| 0 <= p < l.len() && l[p] == s[q];
        assert(saved_from(st, runtime, objects, l[p]));
        let i = choose|i: int|
            0 <= i < objects.len() && authored_entry(objects[i]) && actor_of(st, runtime, objects[i].0, objects[i].1)
                == Some(l[p]) && #[trigger] objects[i] == objects[i];
        lemma_actor_of_identity(st, runtime, objects[i].0, objects[i].1);
    }
}

/// Whether every timer of an authored actor has finite times.
pub open spec fn authored_timers_finite(runtime: ScriptRuntime) -> bool {
    let objects = runtime.actor_objects@;
    forall|i: int|
        0 <= i < objects.len() && authored_entry(#[trigger] objects[i]) ==> (table_get(runtime.timers@, objects[i].0) matches Some(
            t,
        ) ==> finite_bits(t.remaining) && finite_bits(t.rate))
}

/// A save is taken only of a runtime whose authored actors' timers are
/// finite, whatever the stems of platform-dependent package paths.
pub proof fn lemma_saved_timers_finite(st: Stems, runtime: ScriptRuntime, map: Seq<char>)
    requires
        saved_game(st, runtime, map) is Some,
    ensures
        authored_timers_finite(runtime),
{
    let objects = runtime.actor_objects@;
    let l = actors_of(st, runtime, objects)->0;
    let m = saved_game(st, runtime, map)->0;
    let s = m.actors;
    lemma_actors_of_members(st, runtime, objects);
    assert(s == sorted_seq::<SavedActor>(l));
    lemma_sorted_seq::<SavedActor>(l);
    assert forall|i: int| 0 <= i < objects.len() && authored_entry(#[trigger] objects[i]) implies (table_get(
        runtime.timers@,
        objects[i].0,
    ) matches Some(t) ==> finite_bits(t.remaining) && finite_bits(t.rate)) by {
        let a = entry_actor(st, runtime, objects[i]);
        lemma_same_items(s, l, a);
        let q = choose|q: int| 0 <= q < s.len() && s[q] == a;
        assert(runtime_writable(m));
        assert(actor_writable(s[q]));
        reveal(actor_of);
    }
}

/// The actors of a save: each is the saved actor of an authored entry,
/// every authored entry gives one, and their indices and objects are
/// distinct.
#[verifier::spinoff_prover]
proof fn lemma_saved_actors(st: Stems, runtime: ScriptRuntime, map: Seq<char>)
    requires
        saved_game(st, runtime, map) is Some,
        authored_distinct(st, runtime),
    ensures
        ({
            let s = saved_game(st, runtime, map)->0.actors;
            let objects = runtime.actor_objects@;
            &&& forall|q: int|
                0 <= q < s.len() ==> exists|i: int|
                    0 <= i < objects.len() && authored_entry(objects[i]) && actor_of(st, 
                        runtime,
                        objects[i].0,
                        objects[i].1,
                    ) == Some(#[trigger] s[q])
            &&& forall|q1: int, q2: int|
                0 <= q1 < q2 < s.len() ==> (#[trigger] s[q1]).actor != (#[trigger] s[q2]).actor
                    && s[q1].object != s[q2].object
            &&& forall|i: int|
                0 <= i < objects.len() && authored_entry(#[trigger] objects[i]) ==> actor_of(st, 
                    runtime,
                    objects[i].0,
                    objects[i].1,
                ) is Some && s.contains(entry_actor(st, runtime, objects[i]))
        }),
{
    let m = saved_game(st, runtime, map)->0;
    let objects = runtime.actor_objects@;
    let l = actors_of(st, runtime, objects)->0;
    lemma_actors_of_members(st, runtime, objects);
    lemma_actors_of_distinct(st, runtime, objects);
    let s = m.actors;
    assert(s == sorted_seq::<SavedActor>(l));
    lemma_sorted_seq::<SavedActor>(l);
    assert forall|q: int| 0 <= q < s.len() implies exists|i: int|
        0 <= i < objects.len() && authored_entry(objects[i]) && actor_of(st, runtime, objects[i].0, objects[i].1)
            == Some(#[trigger] s[q]) by {
        lemma_same_items(s, l, s[q]);
        assert(s.contains(s[q]));
        let k = choose|k: int| 0 <= k < l.len() && l[k] == s[q];
        assert(saved_from(st, runtime, objects, l[k]));
        let i = choose|i: int|
            0 <= i < objects.len() && authored_entry(objects[i]) && actor_of(st, runtime, objects[i].0, objects[i].1)
                == Some(l[k]) && #[trigger] objects[i] == objects[i];
    }
    assert(l.no_duplicates()) by {
        assert forall|a: int, b: int| 0 <= a < b < l.len() implies l[a] != l[b] by {
            assert(l[a].actor != l[b].actor);
        }
    }
    l.lemma_multiset_has_no_duplicates();
    assert forall|x: ActorModel| s.to_multiset().contains(x) implies s.to_multiset().count(x) == 1 by {
        assert(l.to_multiset().count(x) == s.to_multiset().count(x));
    }
    s.lemma_multiset_has_no_duplicates_conv();
    assert forall|q1: int, q2: int|
        0 <= q1 < q2 < s.len() implies (#[trigger] s[q1]).actor != (#[trigger] s[q2]).actor
            && s[q1].object != s[q2].object by {
        lemma_same_items(s, l, s[q1]);
        lemma_same_items(s, l, s[q2]);
        assert(s.contains(s[q1]) && s.contains(s[q2]));
        let k1 = choose|k: int| 0 <= k < l.len() && l[k] == s[q1];
        let k2 = choose|k: int| 0 <= k < l.len() && l[k] == s[q2];
        assert(s[q1] != s[q2]);
        assert(k1 != k2);
        if k1 < k2 {
            assert(l[k1].actor != l[k2].actor && l[k1].object != l[k2].object);
        } else {
            assert(l[k2].actor != l[k1].actor && l[k2].object != l[k1].object);
        }
    }
    assert forall|i: int|
        0 <= i < objects.len() && authored_entry(#[trigger] objects[i]) implies actor_of(st, 
            runtime,
            objects[i].0,
            objects[i].1,
        ) is Some && s.contains(entry_actor(st, runtime, objects[i])) by {
        lemma_same_items(s, l, entry_actor(st, runtime, objects[i]));
    }
}

/// Each actor index is registered once.
pub open spec fn registered_once(objects: Seq<(usize, ObjectId)>) -> bool {
    forall|i: int, j: int| 0 <= i < j < objects.len() ==> objects[i].0 != objects[j].0
}

/// The authored object an actor index is registered for, if any.
pub open spec fn authored_object(objects: Seq<(usize, ObjectId)>, actor: usize) -> Option<ObjectIdModel> {
    match table_get(objects, actor) {
        Some(o) => if o@.package != runtime_package() {
            Some(o@)
        } else {
            None
        },
        None => None,
    }
}

/// Two runtimes register the same authored actors: each actor index is
/// registered for the same authored object in both, with the same class.
/// Actors spawned at run time may differ.
pub open spec fn same_authored(runtime: ScriptRuntime, other: ScriptRuntime) -> bool {
    &&& forall|a: usize|
        #[trigger] authored_object(other.actor_objects@, a) == authored_object(runtime.actor_objects@, a)
    &&& forall|a: usize|
        authored_object(runtime.actor_objects@, a) is Some ==> #[trigger] table_get(other.actor_classes@, a)
            == table_get(runtime.actor_classes@, a)
}

/// In a table whose keys are distinct, each entry is the one found for its
/// key.
proof fn lemma_distinct_get(objects: Seq<(usize, ObjectId)>, i: int)
    requires
        registered_once(objects),
        0 <= i < objects.len(),
    ensures
        table_get(objects, objects[i].0) == Some(objects[i].1),
    decreases objects.len(),
{
    if i > 0 {
        let rest = objects.subrange(1, objects.len() as int);
        assert(objects[0].0 != objects[i].0);
        assert forall|a: int, b: int| 0 <= a < b < rest.len() implies rest[a].0 != rest[b].0 by {
            assert(rest[a] == objects[a + 1] && rest[b] == objects[b + 1]);
        }
        lemma_distinct_get(rest, i - 1);
        assert(rest[i - 1] == objects[i]);
    }
}

/// An authored entry of one of two tables that register the same authored
/// objects has an entry with the same index and object in the other.
proof fn lemma_corresponding_entry(from: Seq<(usize, ObjectId)>, to: Seq<(usize, ObjectId)>, i: int)
    requires
        registered_once(from),
        forall|a: usize| #[trigger] authored_object(from, a) == authored_object(to, a),
        0 <= i < from.len(),
        authored_entry(from[i]),
    ensures
        exists|j: int|
            0 <= j < to.len() && #[trigger] to[j].0 == from[i].0 && to[j].1@ == from[i].1@ && authored_entry(to[j]),
{
    lemma_distinct_get(from, i);
    let a = from[i].0;
    assert(authored_object(from, a) == Some(from[i].1@));
    assert(authored_object(to, a) == Some(from[i].1@));
    lemma_table_get_index(to, a);
    let j = choose|j: int| 0 <= j < to.len() && #[trigger] to[j] == (a, table_get(to, a)->0);
    assert(to[j].0 == from[i].0);
}

/// A save restores onto any runtime that registers the same authored
/// actors as the one it was taken from: read back for the same map, in any
/// ASCII case, the bytes hold the snapshot that was saved, and every saved
/// actor restores onto the actor of the same index. The save and the
/// restore take the stems of platform-dependent package paths from the same
/// `st`. This holds when the saving runtime's authored actors can be told
/// apart in a snapshot and every object in it is in the form the reader
/// gives back.
#[verifier::spinoff_prover]
#[verifier::rlimit(40)]
pub proof fn lemma_save_restores_onto(st: Stems, runtime: ScriptRuntime, other: ScriptRuntime, map: Seq<char>, map2: Seq<char>)
    requires
        saved_game(st, runtime, map) is Some,
        runtime_canonical(saved_game(st, runtime, map)->0),
        authored_distinct(st, runtime),
        registered_once(other.actor_objects@),
        same_authored(runtime, other),
        same_ignoring_ascii_case(map, map2),
    ensures
        restore_plan_of(st, other, map2, runtime_le(saved_game(st, runtime, map)->0)) == Some(
            (saved_game(st, runtime, map)->0, identity_targets(saved_game(st, runtime, map)->0.actors)),
        ),
{
    let m = saved_game(st, runtime, map)->0;
    lemma_saved_game_reads_back(st, runtime, map);
    let objects = runtime.actor_objects@;
    let o2 = other.actor_objects@;
    lemma_saved_actors(st, runtime, map);
    let s = m.actors;
    assert forall|q: int|
        0 <= q < s.len() implies (#[trigger] s[q]).object.package != runtime_package() && (table_get(
            other.actor_classes@,
            s[q].actor,
        ) matches Some(class) && saved_object_of(st, class@) == Some(s[q].class)) by {
        let i = choose|i: int|
            0 <= i < objects.len() && authored_entry(objects[i]) && actor_of(st, runtime, objects[i].0, objects[i].1)
                == Some(s[q]);
        lemma_actor_of_identity(st, runtime, objects[i].0, objects[i].1);
        lemma_distinct_get(objects, i);
        assert(authored_object(objects, s[q].actor) is Some);
    }
    assert(!has_transient(s));
    assert(discarded(m) == m);
    assert forall|i: int| 0 <= i < objects.len() && authored_entry(objects[i]) implies saved_object_of(st, 
        objects[i].1@,
    ) is Some by {
        assert(authored_entry(objects[i]));
        lemma_actor_of_identity(st, runtime, objects[i].0, objects[i].1);
    }
    lemma_authored_of(st, objects);
    let authored = authored_of(st, objects)->0;
    // The other runtime's authored map is the same map.
    assert forall|a: usize| #[trigger] authored_object(o2, a) == authored_object(objects, a) by {
        assert(authored_object(other.actor_objects@, a) == authored_object(runtime.actor_objects@, a));
    }
    assert forall|i: int| 0 <= i < o2.len() && authored_entry(o2[i]) implies saved_object_of(st, o2[i].1@) is Some by {
        lemma_corresponding_entry(o2, objects, i);
    }
    assert forall|i: int, j: int|
        0 <= i < j < o2.len() && authored_entry(o2[i]) && authored_entry(o2[j]) implies saved_object_of(st, o2[i].1@)
            != saved_object_of(st, o2[j].1@) by {
        lemma_corresponding_entry(o2, objects, i);
        lemma_corresponding_entry(o2, objects, j);
        let i2 = choose|k: int|
            0 <= k < objects.len() && #[trigger] objects[k].0 == o2[i].0 && objects[k].1@ == o2[i].1@
                && authored_entry(objects[k]);
        let j2 = choose|k: int|
            0 <= k < objects.len() && #[trigger] objects[k].0 == o2[j].0 && objects[k].1@ == o2[j].1@
                && authored_entry(objects[k]);
        assert(o2[i].0 != o2[j].0);
        assert(i2 != j2);
        if i2 < j2 {
            assert(saved_object_of(st, objects[i2].1@) != saved_object_of(st, objects[j2].1@));
        } else {
            assert(saved_object_of(st, objects[j2].1@) != saved_object_of(st, objects[i2].1@));
        }
    }
    lemma_authored_of(st, o2);
    let authored2 = authored_of(st, o2)->0;
    assert forall|o: ObjectModel| authored2.dom().contains(o) implies authored.dom().contains(o) && authored2[o]
        == authored[o] by {
        let i = choose|i: int|
            0 <= i < o2.len() && authored_entry(o2[i]) && #[trigger] saved_object_of(st, o2[i].1@) == Some(o);
        lemma_corresponding_entry(o2, objects, i);
        let j = choose|k: int|
            0 <= k < objects.len() && #[trigger] objects[k].0 == o2[i].0 && objects[k].1@ == o2[i].1@
                && authored_entry(objects[k]);
        assert(saved_object_of(st, objects[j].1@) == Some(o));
        assert(authored[saved_object_of(st, objects[j].1@)->0] == objects[j].0);
        assert(authored2[saved_object_of(st, o2[i].1@)->0] == o2[i].0);
    }
    assert forall|o: ObjectModel| authored.dom().contains(o) implies authored2.dom().contains(o) by {
        let j = choose|j: int|
            0 <= j < objects.len() && authored_entry(objects[j]) && #[trigger] saved_object_of(st, objects[j].1@)
                == Some(o);
        lemma_corresponding_entry(objects, o2, j);
        let i = choose|k: int|
            0 <= k < o2.len() && #[trigger] o2[k].0 == objects[j].0 && o2[k].1@ == objects[j].1@ && authored_entry(
                o2[k],
            );
        assert(saved_object_of(st, o2[i].1@) == Some(o));
    }
    assert(authored2 =~= authored);
    assert forall|o: ObjectModel|
        authored.dom().contains(o) <==> exists|q: int| 0 <= q < s.len() && (#[trigger] s[q]).object == o by {
        if authored.dom().contains(o) {
            let i = choose|i: int|
                0 <= i < objects.len() && authored_entry(objects[i]) && #[trigger] saved_object_of(st, objects[i].1@)
                    == Some(o);
            assert(authored_entry(objects[i]));
            lemma_actor_of_identity(st, runtime, objects[i].0, objects[i].1);
            let a = entry_actor(st, runtime, objects[i]);
            let q = choose|q: int| 0 <= q < s.len() && s[q] == a;
            assert(s[q].object == o);
        }
        if exists|q: int| 0 <= q < s.len() && (#[trigger] s[q]).object == o {
            let q = choose|q: int| 0 <= q < s.len() && (#[trigger] s[q]).object == o;
            let i = choose|i: int|
                0 <= i < objects.len() && authored_entry(objects[i]) && actor_of(st, runtime, objects[i].0, objects[i].1)
                    == Some(s[q]);
            lemma_actor_of_identity(st, runtime, objects[i].0, objects[i].1);
            assert(saved_object_of(st, objects[i].1@) == Some(o));
        }
    }
    assert forall|q: int| 0 <= q < s.len() implies authored[(#[trigger] s[q]).object] == s[q].actor by {
        let i = choose|i: int|
            0 <= i < objects.len() && authored_entry(objects[i]) && actor_of(st, runtime, objects[i].0, objects[i].1)
                == Some(s[q]);
        lemma_actor_of_identity(st, runtime, objects[i].0, objects[i].1);
        assert(authored[saved_object_of(st, objects[i].1@)->0] == objects[i].0);
    }
    lemma_match_actors(st, other, s, authored, Seq::empty());
    assert(Seq::<(usize, usize)>::empty() + identity_targets(s) =~= identity_targets(s));
    assert(same_ignoring_ascii_case(m.map, map2));
}

/// A save restores onto the runtime it was taken from: read back for the
/// same map, the bytes hold the snapshot that was saved, and every saved
/// actor restores onto itself. This holds when the runtime's authored
/// actors can be told apart in a snapshot and every object in it is in
/// the form the reader gives back.
pub proof fn lemma_save_restores_onto_itself(st: Stems, runtime: ScriptRuntime, map: Seq<char>)
    requires
        saved_game(st, runtime, map) is Some,
        runtime_canonical(saved_game(st, runtime, map)->0),
        authored_distinct(st, runtime),
    ensures
        restore_plan_of(st, runtime, map, runtime_le(saved_game(st, runtime, map)->0)) == Some(
            (saved_game(st, runtime, map)->0, identity_targets(saved_game(st, runtime, map)->0.actors)),
        ),
{
    lemma_save_restores_onto(st, runtime, runtime, map, map);
}

/// The state an actor is in: none when its table has no entry for it or an
/// entry without a state.
pub open spec fn actor_state(runtime: ScriptRuntime, actor: usize) -> Option<Seq<char>> {
    match table_get(runtime.actor_states@, actor) {
        Some(Some(s)) => Some(s@),
        _ => None,
    }
}

/// How often an actor's state changed: 0 when its table has no entry for
/// it.
pub open spec fn actor_revision(runtime: ScriptRuntime, actor: usize) -> u64 {
    match table_get(runtime.state_revisions@, actor) {
        Some(r) => r,
        None => 0,
    }
}

pub(crate) proof fn lemma_table_get_index<X>(table: Seq<(usize, X)>, actor: usize)
    requires
        table_get(table, actor) is Some,
    ensures
        exists|i: int| 0 <= i < table.len() && #[trigger] table[i] == (actor, table_get(table, actor)->0),
    decreases table.len(),
{
    if table[0].0 != actor {
        let rest = table.subrange(1, table.len() as int);
        lemma_table_get_index(rest, actor);
        let i = choose|i: int| 0 <= i < rest.len() && #[trigger] rest[i] == (actor, table_get(rest, actor)->0);
        assert(table[i + 1] == rest[i]);
    } else {
        assert(table[0] == (actor, table[0].1));
    }
}

proof fn lemma_table_get_push_any<X>(table: Seq<(usize, X)>, entry: (usize, X), actor: usize)
    ensures
        table_get(table.push(entry), actor) == if table_get(table, actor) is Some {
            table_get(table, actor)
        } else if entry.0 == actor {
            Some(entry.1)
        } else {
            None
        },
    decreases table.len(),
{
    let t = table.push(entry);
    if table.len() == 0 {
        assert(t.subrange(1, t.len() as int) =~= Seq::<(usize, X)>::empty());
        assert(t[0] == entry);
        assert(table_get(Seq::<(usize, X)>::empty(), actor) is None);
        assert(table_get(table, actor) is None);
    } else {
        let rest = table.subrange(1, table.len() as int);
        lemma_table_get_push_any(rest, entry, actor);
        assert(t.subrange(1, t.len() as int) =~= rest.push(entry));
        assert(t[0] == table[0]);
    }
}

proof fn lemma_spawned_entries_of_authored<X>(objects: Seq<(usize, ObjectId)>, table: Seq<(usize, X)>, actor: usize)
    requires
        !spawned(objects, actor),
    ensures
        table_get(spawned_entries(objects, table), actor) is None,
    decreases table.len(),
{
    if table.len() > 0 {
        lemma_spawned_entries_of_authored(objects, table.drop_last(), actor);
        if spawned(objects, table.last().0) {
            lemma_table_get_push_any(spawned_entries(objects, table.drop_last()), table.last(), actor);
        }
    }
}

proof fn lemma_spawned_of_authored(runtime: ScriptRuntime, actor: usize)
    requires
        !transient(runtime, actor),
    ensures
        !spawned(runtime.actor_objects@, actor),
{
}

proof fn lemma_spawned_list_of_authored(objects: Seq<(usize, ObjectId)>, actors: Seq<usize>, actor: usize)
    requires
        !spawned(objects, actor),
    ensures
        !spawned_list(objects, actors).contains(actor),
    decreases actors.len(),
{
    if actors.len() > 0 {
        lemma_spawned_list_of_authored(objects, actors.drop_last(), actor);
        let rest = spawned_list(objects, actors.drop_last());
        if spawned(objects, actors.last()) {
            assert forall|k: int| 0 <= k < rest.push(actors.last()).len() implies rest.push(actors.last())[k] != actor by {
                if k < rest.len() {
                    assert(rest.push(actors.last())[k] == rest[k]);
                }
            }
        }
    }
}

proof fn lemma_identity_target(actors: Seq<ActorModel>, k: int)
    requires
        0 <= k < actors.len(),
    ensures
        table_get(identity_targets(actors), actors[k].actor) == Some(actors[k].actor),
    decreases actors.len(),
{
    let t = identity_targets(actors);
    if actors[0].actor != actors[k].actor {
        let rest = actors.subrange(1, actors.len() as int);
        lemma_identity_target(rest, k - 1);
        assert(t.subrange(1, t.len() as int) =~= identity_targets(rest));
        assert(rest[k - 1] == actors[k]);
    }
}

proof fn lemma_written_elsewhere<X>(
    base: Option<X>,
    actors: Seq<ActorModel>,
    targets: Seq<(usize, usize)>,
    actor: usize,
    entry: spec_fn(ActorModel) -> Option<X>,
)
    requires
        forall|k: int| 0 <= k < actors.len() ==> table_get(targets, #[trigger] actors[k].actor) != Some(actor),
    ensures
        written(base, actors, targets, actor, entry) == base,
    decreases actors.len(),
{
    if actors.len() > 0 {
        let init = actors.drop_last();
        assert(table_get(targets, actors[actors.len() - 1].actor) != Some(actor));
        assert forall|k: int| 0 <= k < init.len() implies table_get(targets, #[trigger] init[k].actor) != Some(actor) by {
            assert(init[k] == actors[k]);
        }
        lemma_written_elsewhere(base, init, targets, actor, entry);
    }
}

proof fn lemma_written_once<X>(
    base: Option<X>,
    actors: Seq<ActorModel>,
    targets: Seq<(usize, usize)>,
    actor: usize,
    entry: spec_fn(ActorModel) -> Option<X>,
    q: int,
)
    requires
        0 <= q < actors.len(),
        forall|k: int| 0 <= k < actors.len() ==> (table_get(targets, #[trigger] actors[k].actor) == Some(actor)) == (k == q),
    ensures
        written(base, actors, targets, actor, entry) == if entry(actors[q]) is Some {
            entry(actors[q])
        } else {
            base
        },
    decreases actors.len(),
{
    let init = actors.drop_last();
    let n = actors.len() - 1;
    assert(table_get(targets, actors[n].actor) == Some(actor) <==> n == q);
    if q == n {
        assert forall|k: int| 0 <= k < init.len() implies table_get(targets, #[trigger] init[k].actor) != Some(actor) by {
            assert(init[k] == actors[k]);
        }
        lemma_written_elsewhere(base, init, targets, actor, entry);
    } else {
        assert forall|k: int|
            0 <= k < init.len() implies (table_get(targets, #[trigger] init[k].actor) == Some(actor)) == (k == q) by {
            assert(init[k] == actors[k]);
        }
        lemma_written_once(base, init, targets, actor, entry, q);
        assert(init[q] == actors[q]);
    }
}

proof fn lemma_identity_only(actors: Seq<ActorModel>, x: usize, y: usize)
    requires
        table_get(identity_targets(actors), x) == Some(y),
    ensures
        y == x,
        exists|k: int| 0 <= k < actors.len() && #[trigger] actors[k].actor == x,
    decreases actors.len(),
{
    let t = identity_targets(actors);
    if actors[0].actor != x {
        let rest = actors.subrange(1, actors.len() as int);
        assert(t.subrange(1, t.len() as int) =~= identity_targets(rest));
        lemma_identity_only(rest, x, y);
        let k = choose|k: int| 0 <= k < rest.len() && #[trigger] rest[k].actor == x;
        assert(actors[k + 1] == rest[k]);
    } else {
        assert(actors[0].actor == x);
    }
}

proof fn lemma_kept_contains(runtime: ScriptRuntime, actors: Seq<usize>, x: usize)
    ensures
        kept(runtime, actors).contains(x) == (actors.contains(x) && !transient(runtime, x)),
    decreases actors.len(),
{
    if actors.len() > 0 {
        let rest = actors.subrange(1, actors.len() as int);
        lemma_kept_contains(runtime, rest, x);
        let k = kept(runtime, rest);
        if actors.contains(x) && actors[0] != x {
            let j = choose|j: int| 0 <= j < actors.len() && actors[j] == x;
            assert(rest[j - 1] == x);
        }
        if rest.contains(x) {
            let j = choose|j: int| 0 <= j < rest.len() && rest[j] == x;
            assert(actors[j + 1] == x);
        }
        if !transient(runtime, actors[0]) {
            let l = seq![actors[0]] + k;
            if k.contains(x) {
                let j = choose|j: int| 0 <= j < k.len() && k[j] == x;
                assert(l[j + 1] == x);
            }
            if l.contains(x) && l[0] != x {
                let j = choose|j: int| 0 <= j < l.len() && l[j] == x;
                assert(k[j - 1] == x);
            }
            assert(l[0] == actors[0]);
        }
    } else {
        assert(!actors.contains(x));
    }
}

proof fn lemma_actor_entries(scopes: Seq<DisabledScope>, actor: usize, x: (Option<Seq<char>>, Seq<char>))
    ensures
        actor_entries(scopes, actor).contains(x) <==> exists|j: int, k: int|
            0 <= j < scopes.len() && scopes[j].actor == actor && 0 <= k < scopes[j].events@.len() && x == (
                crate::world::capture::state_entry(scopes[j].state@),
                #[trigger] scopes[j].events@[k]@,
            ),
    decreases scopes.len(),
{
    if scopes.len() > 0 {
        let rest = scopes.subrange(1, scopes.len() as int);
        lemma_actor_entries(rest, actor, x);
        let r = actor_entries(rest, actor);
        let here = crate::world::capture::scope_entries(scopes[0]);
        if actor_entries(scopes, actor).contains(x) {
            if scopes[0].actor == actor && !r.contains(x) {
                let p = choose|p: int| 0 <= p < (here + r).len() && (here + r)[p] == x;
                if p < here.len() {
                    assert(here[p] == x);
                    assert(scopes[0].events@[p]@ == x.1);
                } else {
                    assert(r[p - here.len()] == x);
                }
            }
            if r.contains(x) {
                let (j, k) = choose|j: int, k: int|
                    0 <= j < rest.len() && rest[j].actor == actor && 0 <= k < rest[j].events@.len() && x == (
                        crate::world::capture::state_entry(rest[j].state@),
                        #[trigger] rest[j].events@[k]@,
                    );
                assert(scopes[j + 1] == rest[j]);
                assert(x == (crate::world::capture::state_entry(scopes[j + 1].state@), scopes[j + 1].events@[k]@));
            }
        }
        if exists|j: int, k: int|
            0 <= j < scopes.len() && scopes[j].actor == actor && 0 <= k < scopes[j].events@.len() && x == (
                crate::world::capture::state_entry(scopes[j].state@),
                #[trigger] scopes[j].events@[k]@,
            ) {
            let (j, k) = choose|j: int, k: int|
                0 <= j < scopes.len() && scopes[j].actor == actor && 0 <= k < scopes[j].events@.len() && x == (
                    crate::world::capture::state_entry(scopes[j].state@),
                    #[trigger] scopes[j].events@[k]@,
                );
            if j == 0 {
                assert(here[k] == x);
                assert((here + r)[k] == x);
            } else {
                assert(rest[j - 1] == scopes[j]);
                assert(x == (crate::world::capture::state_entry(rest[j - 1].state@), rest[j - 1].events@[k]@));
                assert(r.contains(x));
                if scopes[0].actor == actor {
                    let p = choose|p: int| 0 <= p < r.len() && r[p] == x;
                    assert((here + r)[here.len() + p] == x);
                }
            }
        }
    }
}

/// An authored actor of the saving runtime is registered, is not a
/// run-time one, and is not a run-time one in a runtime that registers the
/// same authored actors either.
proof fn lemma_authored_actor(runtime: ScriptRuntime, other: ScriptRuntime, actor: usize)
    requires
        same_authored(runtime, other),
        authored_object(runtime.actor_objects@, actor) is Some,
    ensures
        table_get(runtime.actor_objects@, actor) is Some,
        !transient(runtime, actor),
        !spawned(other.actor_objects@, actor),
{
    assert(authored_object(other.actor_objects@, actor) == authored_object(runtime.actor_objects@, actor));
}

/// Restoring a save onto a runtime that registers the same authored actors
/// as the one it was taken from (that runtime itself among them), when the
/// restore succeeds, gives every authored actor the events it had disabled
/// when the save was taken. This holds when the saving runtime's authored
/// actors can be told apart in a snapshot and every object in it is in the
/// form the reader gives back.
#[verifier::spinoff_prover]
pub proof fn lemma_restore_brings_back_disabled_events(st: Stems, 
    runtime: ScriptRuntime,
    other: ScriptRuntime,
    map: Seq<char>,
    map2: Seq<char>,
    snapshot: RuntimeModel,
    targets: Seq<(usize, usize)>,
    after: ScriptRuntime,
    actor: usize,
)
    requires
        runtime.disabled_events.wf(),
        saved_game(st, runtime, map) is Some,
        runtime_canonical(saved_game(st, runtime, map)->0),
        authored_distinct(st, runtime),
        registered_once(other.actor_objects@),
        same_authored(runtime, other),
        restore_plan_of(st, other, map2, runtime_le(saved_game(st, runtime, map)->0)) == Some((snapshot, targets)),
        refs_resolve(snapshot, targets),
        restored(other, snapshot, targets, after),
        authored_object(runtime.actor_objects@, actor) is Some,
    ensures
        forall|state: Seq<char>, event: Seq<char>|
            #[trigger] after.disabled_events.holds(actor, state, event) == runtime.disabled_events.holds(
                actor,
                state,
                event,
            ),
{
    lemma_saved_game_reads_back(st, runtime, map);
    assert(same_ignoring_ascii_case(map, map2));
    lemma_authored_actor(runtime, other, actor);
    lemma_save_restores_onto(st, runtime, other, map, map2);
    lemma_saved_actors(st, runtime, map);
    let m = saved_game(st, runtime, map)->0;
    let s = m.actors;
    let objects = runtime.actor_objects@;
    assert(snapshot == m && targets == identity_targets(s));
    lemma_table_get_index(objects, actor);
    let i = choose|i: int| 0 <= i < objects.len() && #[trigger] objects[i] == (actor, table_get(objects, actor)->0);
    assert(authored_entry(objects[i]));
    let a = entry_actor(st, runtime, objects[i]);
    lemma_actor_of_identity(st, runtime, objects[i].0, objects[i].1);
    assert(s.contains(a));
    let q = choose|q: int| 0 <= q < s.len() && s[q] == a;
    assert(a.disabled_events == disabled_of(runtime.disabled_events, actor)) by {
        reveal(actor_of);
    }
    let scopes = runtime.disabled_events.scopes@;
    let entries = actor_entries(scopes, actor);
    lemma_sorted_seq::<DisabledEntry>(entries);
    assert forall|state: Seq<char>, event: Seq<char>|
        #[trigger] after.disabled_events.holds(actor, state, event) == runtime.disabled_events.holds(
            actor,
            state,
            event,
        ) by {
        if disabled_written(s, targets, actor, state, event) {
            let (p, k) = choose|p: int, k: int|
                0 <= p < s.len() && 0 <= k < s[p].disabled_events.len() && table_get(targets, s[p].actor)
                    == Some(actor) && event_scope(#[trigger] s[p].disabled_events[k].0) == state && lower(
                    s[p].disabled_events[k].1,
                ) == event;
            lemma_identity_only(s, s[p].actor, actor);
            if p != q {
                if p < q {
                    assert(s[p].actor != s[q].actor);
                } else {
                    assert(s[q].actor != s[p].actor);
                }
            }
            let x = a.disabled_events[k];
            assert(a.disabled_events.contains(x));
            lemma_same_items(a.disabled_events, entries, x);
            lemma_actor_entries(scopes, actor, x);
            let (j, kk) = choose|j: int, kk: int|
                0 <= j < scopes.len() && scopes[j].actor == actor && 0 <= kk < scopes[j].events@.len() && x == (
                    crate::world::capture::state_entry(scopes[j].state@),
                    #[trigger] scopes[j].events@[kk]@,
                );
            assert(lower(scopes[j].state@) == scopes[j].state@);
            assert(lower(scopes[j].events@[kk]@) == scopes[j].events@[kk]@);
            if scopes[j].state@.len() == 0 {
                assert(scopes[j].state@ =~= Seq::<char>::empty());
                assert(lower(Seq::<char>::empty()) =~= Seq::<char>::empty());
            }
            assert(scopes[j].events@[kk]@ == event);
        }
        if runtime.disabled_events.holds(actor, state, event) {
            let (j, kk) = choose|j: int, kk: int|
                0 <= j < scopes.len() && scopes[j].actor == actor && scopes[j].state@ == state && 0 <= kk
                    < scopes[j].events@.len() && #[trigger] scopes[j].events@[kk]@ == event;
            let x = (crate::world::capture::state_entry(scopes[j].state@), scopes[j].events@[kk]@);
            lemma_actor_entries(scopes, actor, x);
            lemma_same_items(a.disabled_events, entries, x);
            let k = choose|k: int| 0 <= k < a.disabled_events.len() && a.disabled_events[k] == x;
            assert(lower(scopes[j].state@) == scopes[j].state@);
            assert(lower(scopes[j].events@[kk]@) == scopes[j].events@[kk]@);
            if scopes[j].state@.len() == 0 {
                assert(scopes[j].state@ =~= Seq::<char>::empty());
                assert(lower(Seq::<char>::empty()) =~= Seq::<char>::empty());
            }
            lemma_identity_target(s, q);
            assert(event_scope(s[q].disabled_events[k].0) == state);
        }
    }
}

/// Restoring a save onto a runtime that registers the same authored actors
/// as the one it was taken from (that runtime itself among them), when the
/// restore succeeds, gives every authored actor the state, state revision
/// and timer it had when the save was taken, and whether it was destroyed,
/// animating or touched by the player's probe, and brings back the random
/// state and the alternate fire button. This holds when the saving
/// runtime's authored actors can be told apart in a snapshot and every
/// object in it is in the form the reader gives back.
#[verifier::spinoff_prover]
pub proof fn lemma_restore_brings_back_actors(st: Stems, 
    runtime: ScriptRuntime,
    other: ScriptRuntime,
    map: Seq<char>,
    map2: Seq<char>,
    snapshot: RuntimeModel,
    targets: Seq<(usize, usize)>,
    after: ScriptRuntime,
    actor: usize,
)
    requires
        saved_game(st, runtime, map) is Some,
        runtime_canonical(saved_game(st, runtime, map)->0),
        authored_distinct(st, runtime),
        registered_once(other.actor_objects@),
        same_authored(runtime, other),
        restore_plan_of(st, other, map2, runtime_le(saved_game(st, runtime, map)->0)) == Some((snapshot, targets)),
        refs_resolve(snapshot, targets),
        restored(other, snapshot, targets, after),
        authored_object(runtime.actor_objects@, actor) is Some,
    ensures
        actor_state(after, actor) == actor_state(runtime, actor),
        actor_revision(after, actor) == actor_revision(runtime, actor),
        table_get(after.timers@, actor) == table_get(runtime.timers@, actor),
        after.destroyed@.contains(actor) == runtime.destroyed@.contains(actor),
        after.animating@.contains(actor) == runtime.animating@.contains(actor),
        after.player_probe_touching@.contains(actor) == runtime.player_probe_touching@.contains(actor),
        after.random_state == runtime.random_state,
        after.player_alt_fire_pressed == runtime.player_alt_fire_pressed,
{
    lemma_restore_brings_back_tables(st, runtime, other, map, map2, snapshot, targets, after, actor);
    lemma_restore_brings_back_lists(st, runtime, other, map, map2, snapshot, targets, after, actor);
}

#[verifier::spinoff_prover]
proof fn lemma_restore_brings_back_tables(st: Stems, 
    runtime: ScriptRuntime,
    other: ScriptRuntime,
    map: Seq<char>,
    map2: Seq<char>,
    snapshot: RuntimeModel,
    targets: Seq<(usize, usize)>,
    after: ScriptRuntime,
    actor: usize,
)
    requires
        saved_game(st, runtime, map) is Some,
        runtime_canonical(saved_game(st, runtime, map)->0),
        authored_distinct(st, runtime),
        registered_once(other.actor_objects@),
        same_authored(runtime, other),
        restore_plan_of(st, other, map2, runtime_le(saved_game(st, runtime, map)->0)) == Some((snapshot, targets)),
        refs_resolve(snapshot, targets),
        restored(other, snapshot, targets, after),
        authored_object(runtime.actor_objects@, actor) is Some,
    ensures
        actor_state(after, actor) == actor_state(runtime, actor),
        actor_revision(after, actor) == actor_revision(runtime, actor),
        table_get(after.timers@, actor) == table_get(runtime.timers@, actor),
        after.destroyed@.contains(actor) == runtime.destroyed@.contains(actor),
{
    lemma_saved_game_reads_back(st, runtime, map);
    assert(same_ignoring_ascii_case(map, map2));
    lemma_authored_actor(runtime, other, actor);
    lemma_save_restores_onto(st, runtime, other, map, map2);
    lemma_saved_actors(st, runtime, map);
    let m = saved_game(st, runtime, map)->0;
    let s = m.actors;
    let objects = runtime.actor_objects@;
    assert(snapshot == m && targets == identity_targets(s));
    lemma_table_get_index(objects, actor);
    let i = choose|i: int| 0 <= i < objects.len() && #[trigger] objects[i] == (actor, table_get(objects, actor)->0);
    assert(authored_entry(objects[i]));
    let a = entry_actor(st, runtime, objects[i]);
    lemma_actor_of_identity(st, runtime, objects[i].0, objects[i].1);
    assert(s.contains(a));
    let q = choose|q: int| 0 <= q < s.len() && s[q] == a;
    assert forall|k: int| 0 <= k < s.len() implies (table_get(targets, #[trigger] s[k].actor) == Some(actor)) == (k == q) by {
        lemma_identity_target(s, k);
        if k < q {
            assert(s[k].actor != s[q].actor);
        } else if q < k {
            assert(s[q].actor != s[k].actor);
        }
    }
    reveal(actor_of);
    let o = other.actor_objects@;
    lemma_written_once(table_get(table_view(spawned_entries(o, other.actor_states@), state_view()), actor), s, targets, actor, state_entry(), q);
    lemma_table_view(after.actor_states@, state_view(), actor);
    lemma_written_once(table_get(spawned_entries(o, other.state_revisions@), actor), s, targets, actor, revision_entry(), q);
    lemma_written_once(table_get(spawned_entries(o, other.timers@), actor), s, targets, actor, timer_entry(), q);
    lemma_spawned_entries_of_authored(o, other.timers@, actor);
    lemma_spawned_list_of_authored(o, other.destroyed@, actor);
    if let Some(t) = table_get(runtime.timers@, actor) {
        assert(ActorTimer { remaining: t.remaining, rate: t.rate, looping: t.looping } == t);
    }
    if destroyed_written(s, targets, actor) {
        let k = choose|k: int| 0 <= k < s.len() && #[trigger] s[k].destroyed && table_get(targets, s[k].actor) == Some(actor);
        assert(k == q);
    }
    if a.destroyed {
        assert(s[q].destroyed);
    }
}

#[verifier::spinoff_prover]
proof fn lemma_restore_brings_back_lists(st: Stems, 
    runtime: ScriptRuntime,
    other: ScriptRuntime,
    map: Seq<char>,
    map2: Seq<char>,
    snapshot: RuntimeModel,
    targets: Seq<(usize, usize)>,
    after: ScriptRuntime,
    actor: usize,
)
    requires
        saved_game(st, runtime, map) is Some,
        runtime_canonical(saved_game(st, runtime, map)->0),
        authored_distinct(st, runtime),
        registered_once(other.actor_objects@),
        same_authored(runtime, other),
        restore_plan_of(st, other, map2, runtime_le(saved_game(st, runtime, map)->0)) == Some((snapshot, targets)),
        refs_resolve(snapshot, targets),
        restored(other, snapshot, targets, after),
        authored_object(runtime.actor_objects@, actor) is Some,
    ensures
        after.animating@.contains(actor) == runtime.animating@.contains(actor),
        after.player_probe_touching@.contains(actor) == runtime.player_probe_touching@.contains(actor),
        after.random_state == runtime.random_state,
        after.player_alt_fire_pressed == runtime.player_alt_fire_pressed,
{
    lemma_saved_game_reads_back(st, runtime, map);
    assert(same_ignoring_ascii_case(map, map2));
    lemma_authored_actor(runtime, other, actor);
    lemma_save_restores_onto(st, runtime, other, map, map2);
    lemma_saved_actors(st, runtime, map);
    let m = saved_game(st, runtime, map)->0;
    let s = m.actors;
    let objects = runtime.actor_objects@;
    let o = other.actor_objects@;
    assert(snapshot == m && targets == identity_targets(s));
    lemma_table_get_index(objects, actor);
    let i = choose|i: int| 0 <= i < objects.len() && #[trigger] objects[i] == (actor, table_get(objects, actor)->0);
    assert(authored_entry(objects[i]));
    let a = entry_actor(st, runtime, objects[i]);
    lemma_actor_of_identity(st, runtime, objects[i].0, objects[i].1);
    assert(s.contains(a));
    let q = choose|q: int| 0 <= q < s.len() && s[q] == a;
    lemma_spawned_list_of_authored(o, other.animating@, actor);
    lemma_kept_contains(runtime, runtime.animating@, actor);
    lemma_sorted_seq::<usize>(kept(runtime, runtime.animating@));
    lemma_same_items(m.animating, kept(runtime, runtime.animating@), actor);
    if listed_onto(m.animating, targets, actor) {
        let k = choose|k: int| 0 <= k < m.animating.len() && table_get(targets, #[trigger] m.animating[k]) == Some(actor);
        lemma_identity_only(s, m.animating[k], actor);
        assert(m.animating.contains(actor));
    }
    if m.animating.contains(actor) {
        let k = choose|k: int| 0 <= k < m.animating.len() && m.animating[k] == actor;
        lemma_identity_target(s, q);
        assert(table_get(targets, m.animating[k]) == Some(actor));
    }
    let probes = m.player_probe_touching;
    lemma_kept_contains(runtime, runtime.player_probe_touching@, actor);
    lemma_sorted_seq::<usize>(kept(runtime, runtime.player_probe_touching@));
    lemma_same_items(probes, kept(runtime, runtime.player_probe_touching@), actor);
    let listed = targets_listed(probes, targets);
    assert(after.player_probe_touching@ == listed);
    if listed.contains(actor) {
        let k = choose|k: int| 0 <= k < listed.len() && listed[k] == actor;
        assert(listed[k] == table_get(targets, probes[k])->0);
        assert(table_get(targets, probes[k]) is Some) by {
            assert(crate::world::apply::list_targeted(probes, targets));
        }
        lemma_identity_only(s, probes[k], table_get(targets, probes[k])->0);
        assert(probes.contains(actor));
    }
    if probes.contains(actor) {
        let k = choose|k: int| 0 <= k < probes.len() && probes[k] == actor;
        lemma_identity_target(s, q);
        assert(listed[k] == actor);
    }
}

/// The snapshot of a command-table entry.
pub open spec fn command_model(entry: (usize, AnimationCommand)) -> CommandModel {
    CommandModel {
        actor: entry.0,
        sequence: entry.1.sequence@,
        relative_rate: entry.1.relative_rate,
        tween_time: entry.1.tween_time,
        looping: entry.1.looping,
        tween_only: entry.1.tween_only,
        root_motion: entry.1.root_motion,
    }
}

#[verifier::spinoff_prover]
#[verifier::rlimit(40)]
proof fn lemma_commands_of_members(runtime: ScriptRuntime, commands: Seq<(usize, AnimationCommand)>)
    requires
        commands_of(runtime, commands) is Some,
        forall|i: int, j: int| 0 <= i < j < commands.len() ==> commands[i].0 != commands[j].0,
    ensures
        forall|q: int|
            0 <= q < commands_of(runtime, commands)->0.len() ==> exists|i: int|
                0 <= i < commands.len() && !transient(runtime, commands[i].0) && #[trigger] commands_of(
                    runtime,
                    commands,
                )->0[q] == command_model(commands[i]),
        forall|i: int|
            0 <= i < commands.len() && !transient(runtime, commands[i].0) ==> commands_of(runtime, commands)->0.contains(
                command_model(#[trigger] commands[i]),
            ),
        forall|q1: int, q2: int|
            0 <= q1 < q2 < commands_of(runtime, commands)->0.len() ==> (#[trigger] commands_of(runtime, commands)->0[q1]).actor
                != (#[trigger] commands_of(runtime, commands)->0[q2]).actor,
    decreases commands.len(),
{
    if commands.len() > 0 {
        let rest = commands.subrange(1, commands.len() as int);
        assert forall|i: int, j: int| 0 <= i < j < rest.len() implies rest[i].0 != rest[j].0 by {
            assert(rest[i] == commands[i + 1] && rest[j] == commands[j + 1]);
        }
        lemma_commands_of_members(runtime, rest);
        let r = commands_of(runtime, rest)->0;
        let l = commands_of(runtime, commands)->0;
        assert forall|q: int| 0 <= q < r.len() implies exists|i: int|
            0 <= i < commands.len() && !transient(runtime, commands[i].0) && #[trigger] r[q] == command_model(commands[i]) by {
            let i = choose|i: int|
                0 <= i < rest.len() && !transient(runtime, rest[i].0) && #[trigger] r[q] == command_model(rest[i]);
            assert(commands[i + 1] == rest[i]);
        }
        assert forall|q: int| 0 <= q < r.len() implies (#[trigger] r[q]).actor != commands[0].0 by {
            let i = choose|i: int|
                0 <= i < commands.len() && !transient(runtime, commands[i].0) && #[trigger] r[q] == command_model(commands[i]);
            let k = choose|k: int|
                0 <= k < rest.len() && !transient(runtime, rest[k].0) && #[trigger] r[q] == command_model(rest[k]);
            assert(commands[k + 1] == rest[k]);
            assert(commands[0].0 != commands[k + 1].0);
        }
        if transient(runtime, commands[0].0) {
            assert(l == r);
            assert forall|q: int| 0 <= q < l.len() implies exists|i: int|
                0 <= i < commands.len() && !transient(runtime, commands[i].0) && #[trigger] l[q] == command_model(commands[i]) by {
                assert(l[q] == r[q]);
                let i = choose|i: int|
                    0 <= i < commands.len() && !transient(runtime, commands[i].0) && #[trigger] r[q] == command_model(
                        commands[i],
                    );
                assert(l[q] == command_model(commands[i]));
            }
            assert forall|i: int| 0 <= i < commands.len() && !transient(runtime, commands[i].0) implies l.contains(
                command_model(#[trigger] commands[i]),
            ) by {
                assert(i > 0);
                assert(rest[i - 1] == commands[i]);
            }
        } else {
            let x = command_model(commands[0]);
            assert(l == seq![x] + r);
            assert forall|q: int| 0 <= q < l.len() implies exists|i: int|
                0 <= i < commands.len() && !transient(runtime, commands[i].0) && #[trigger] l[q] == command_model(commands[i]) by {
                if q == 0 {
                    assert(l[0] == command_model(commands[0]));
                    assert(0 <= 0 < commands.len() && !transient(runtime, commands[0].0) && l[0] == command_model(
                        commands[0],
                    ));
                } else {
                    assert(l[q] == r[q - 1]);
                    let i = choose|i: int|
                        0 <= i < commands.len() && !transient(runtime, commands[i].0) && #[trigger] r[q - 1]
                            == command_model(commands[i]);
                    assert(l[q] == command_model(commands[i]));
                }
            }
            assert forall|i: int| 0 <= i < commands.len() && !transient(runtime, commands[i].0) implies l.contains(
                command_model(#[trigger] commands[i]),
            ) by {
                if i == 0 {
                    assert(l[0] == x);
                } else {
                    assert(rest[i - 1] == commands[i]);
                    assert(r.contains(command_model(rest[i - 1])));
                    let p = choose|p: int| 0 <= p < r.len() && r[p] == command_model(rest[i - 1]);
                    assert(l[p + 1] == r[p]);
                }
            }
            assert forall|q1: int, q2: int|
                0 <= q1 < q2 < l.len() implies (#[trigger] l[q1]).actor != (#[trigger] l[q2]).actor by {
                if q1 == 0 {
                    assert(l[q2] == r[q2 - 1]);
                } else {
                    assert(l[q1] == r[q1 - 1] && l[q2] == r[q2 - 1]);
                }
            }
        }
    }
}

proof fn lemma_command_written_elsewhere(
    base: Option<crate::world::runtime::AnimationModel>,
    commands: Seq<CommandModel>,
    targets: Seq<(usize, usize)>,
    actor: usize,
)
    requires
        forall|k: int| 0 <= k < commands.len() ==> table_get(targets, #[trigger] commands[k].actor) != Some(actor),
    ensures
        command_written(base, commands, targets, actor) == base,
    decreases commands.len(),
{
    if commands.len() > 0 {
        let init = commands.drop_last();
        assert(table_get(targets, commands[commands.len() - 1].actor) != Some(actor));
        assert forall|k: int| 0 <= k < init.len() implies table_get(targets, #[trigger] init[k].actor) != Some(actor) by {
            assert(init[k] == commands[k]);
        }
        lemma_command_written_elsewhere(base, init, targets, actor);
    }
}

proof fn lemma_command_written_once(
    base: Option<crate::world::runtime::AnimationModel>,
    commands: Seq<CommandModel>,
    targets: Seq<(usize, usize)>,
    actor: usize,
    q: int,
)
    requires
        0 <= q < commands.len(),
        forall|k: int| 0 <= k < commands.len() ==> (table_get(targets, #[trigger] commands[k].actor) == Some(actor)) == (k == q),
    ensures
        command_written(base, commands, targets, actor) == Some(animation_of(commands[q])),
    decreases commands.len(),
{
    let init = commands.drop_last();
    let n = commands.len() - 1;
    assert(table_get(targets, commands[n].actor) == Some(actor) <==> n == q);
    if q != n {
        assert forall|k: int|
            0 <= k < init.len() implies (table_get(targets, #[trigger] init[k].actor) == Some(actor)) == (k == q) by {
            assert(init[k] == commands[k]);
        }
        lemma_command_written_once(base, init, targets, actor, q);
        assert(init[q] == commands[q]);
    }
}

/// Restoring a save onto the runtime it was taken from, when the restore
/// succeeds, gives every authored actor back the animation it plays. This
/// holds when the runtime's authored actors can be told apart in a
/// snapshot, every object in it is in the form the reader gives back, and
/// the animation table holds one entry per actor.
#[verifier::spinoff_prover]
pub proof fn lemma_restore_brings_back_animations(st: Stems, 
    runtime: ScriptRuntime,
    map: Seq<char>,
    snapshot: RuntimeModel,
    targets: Seq<(usize, usize)>,
    after: ScriptRuntime,
    actor: usize,
)
    requires
        forall|i: int, j: int|
            0 <= i < j < runtime.animation_commands@.len() ==> runtime.animation_commands@[i].0
                != runtime.animation_commands@[j].0,
        saved_game(st, runtime, map) is Some,
        runtime_canonical(saved_game(st, runtime, map)->0),
        authored_distinct(st, runtime),
        restore_plan_of(st, runtime, map, runtime_le(saved_game(st, runtime, map)->0)) == Some((snapshot, targets)),
        refs_resolve(snapshot, targets),
        restored(runtime, snapshot, targets, after),
        table_get(runtime.actor_objects@, actor) is Some,
        !transient(runtime, actor),
    ensures
        table_get(table_view(after.animation_commands@, command_view()), actor) == table_get(
            table_view(runtime.animation_commands@, command_view()),
            actor,
        ),
{
    lemma_save_restores_onto_itself(st, runtime, map);
    lemma_saved_actors(st, runtime, map);
    let m = saved_game(st, runtime, map)->0;
    let s = m.actors;
    let objects = runtime.actor_objects@;
    let o = objects;
    assert(snapshot == m && targets == identity_targets(s));
    lemma_table_get_index(objects, actor);
    let i0 = choose|i: int| 0 <= i < objects.len() && #[trigger] objects[i] == (actor, table_get(objects, actor)->0);
    assert(authored_entry(objects[i0]));
    let a = entry_actor(st, runtime, objects[i0]);
    lemma_actor_of_identity(st, runtime, objects[i0].0, objects[i0].1);
    let qa = choose|q: int| 0 <= q < s.len() && s[q] == a;
    let cmds = runtime.animation_commands@;
    let l = commands_of(runtime, cmds)->0;
    let big = m.animation_commands;
    lemma_commands_of_members(runtime, cmds);
    lemma_sorted_seq::<SavedAnimationCommand>(l);
    lemma_spawned_entries_of_authored(o, cmds, actor);
    lemma_table_view(spawned_entries(o, cmds), command_view(), actor);
    lemma_table_view(after.animation_commands@, command_view(), actor);
    lemma_table_view(cmds, command_view(), actor);
    // The commands of the save have distinct actors.
    assert(l.no_duplicates()) by {
        assert forall|p1: int, p2: int| 0 <= p1 < p2 < l.len() implies l[p1] != l[p2] by {
            assert(l[p1].actor != l[p2].actor);
        }
    }
    l.lemma_multiset_has_no_duplicates();
    assert forall|x: CommandModel| big.to_multiset().contains(x) implies big.to_multiset().count(x) == 1 by {
        assert(l.to_multiset().count(x) == big.to_multiset().count(x));
    }
    big.lemma_multiset_has_no_duplicates_conv();
    assert forall|p1: int, p2: int| 0 <= p1 < p2 < big.len() implies (#[trigger] big[p1]).actor != (#[trigger] big[p2]).actor by {
        lemma_same_items(big, l, big[p1]);
        lemma_same_items(big, l, big[p2]);
        assert(big.contains(big[p1]) && big.contains(big[p2]));
        let k1 = choose|k: int| 0 <= k < l.len() && l[k] == big[p1];
        let k2 = choose|k: int| 0 <= k < l.len() && l[k] == big[p2];
        assert(big[p1] != big[p2]);
        if k1 < k2 {
            assert(l[k1].actor != l[k2].actor);
        } else if k2 < k1 {
            assert(l[k2].actor != l[k1].actor);
        }
    }
    assert forall|k: int| 0 <= k < big.len() implies (table_get(targets, #[trigger] big[k].actor) == Some(actor)) == (
    big[k].actor == actor) by {
        if big[k].actor == actor {
            lemma_identity_target(s, qa);
        }
        if table_get(targets, big[k].actor) == Some(actor) {
            lemma_identity_only(s, big[k].actor, actor);
        }
    }
    match table_get(cmds, actor) {
        Some(c) => {
            lemma_table_get_index(cmds, actor);
            let i = choose|i: int| 0 <= i < cmds.len() && #[trigger] cmds[i] == (actor, c);
            assert(l.contains(command_model(cmds[i])));
            lemma_same_items(big, l, command_model(cmds[i]));
            let p = choose|p: int| 0 <= p < big.len() && big[p] == command_model(cmds[i]);
            assert forall|k: int| 0 <= k < big.len() implies (table_get(targets, #[trigger] big[k].actor) == Some(actor))
                == (k == p) by {
                if k < p {
                    assert(big[k].actor != big[p].actor);
                } else if p < k {
                    assert(big[p].actor != big[k].actor);
                }
            }
            lemma_command_written_once(None, big, targets, actor, p);
        },
        None => {
            assert forall|k: int| 0 <= k < big.len() implies table_get(targets, #[trigger] big[k].actor) != Some(actor) by {
                lemma_same_items(big, l, big[k]);
                assert(big.contains(big[k]));
                let q = choose|q: int| 0 <= q < l.len() && l[q] == big[k];
                let i = choose|i: int| 0 <= i < cmds.len() && !transient(runtime, cmds[i].0) && #[trigger] l[q] == command_model(cmds[i]);
                if big[k].actor == actor {
                    crate::world::apply::lemma_table_get_found(cmds, i);
                }
            }
            lemma_command_written_elsewhere(None, big, targets, actor);
        },
    }
}

/// The channels a table lists for an actor; none when it has no entry.
pub open spec fn channels_at(table: Seq<(usize, Vec<AnimationChannel>)>, actor: usize) -> Seq<AnimationChannel> {
    match table_get(table_view(table, channels_view()), actor) {
        Some(l) => l,
        None => Seq::empty(),
    }
}

/// The channels driven by authored actors, in their order.
pub open spec fn authored_channels(runtime: ScriptRuntime, channels: Seq<AnimationChannel>) -> Seq<AnimationChannel>
    decreases channels.len(),
{
    if channels.len() == 0 {
        Seq::empty()
    } else {
        let rest = authored_channels(runtime, channels.drop_last());
        if transient(runtime, channels.last().actor) {
            rest
        } else {
            rest.push(channels.last())
        }
    }
}

/// The saved channels of `actor`, as the channels they restore to when
/// every actor restores onto itself.
pub open spec fn channels_for(saved: Seq<SavedAnimationChannel>, actor: usize) -> Seq<AnimationChannel>
    decreases saved.len(),
{
    if saved.len() == 0 {
        Seq::empty()
    } else {
        let rest = channels_for(saved.drop_last(), actor);
        if saved.last().actor == actor {
            rest.push(AnimationChannel { root_bone: saved.last().root_bone, actor: saved.last().target })
        } else {
            rest
        }
    }
}

proof fn lemma_channels_for_concat(a: Seq<SavedAnimationChannel>, b: Seq<SavedAnimationChannel>, actor: usize)
    ensures
        channels_for(a + b, actor) == channels_for(a, actor) + channels_for(b, actor),
    decreases b.len(),
{
    if b.len() == 0 {
        assert(a + b =~= a);
        assert(channels_for(a, actor) + Seq::<AnimationChannel>::empty() =~= channels_for(a, actor));
    } else {
        lemma_channels_for_concat(a, b.drop_last(), actor);
        assert((a + b).drop_last() =~= a + b.drop_last());
        assert((a + b).last() == b.last());
        if b.last().actor == actor {
            let y = AnimationChannel { root_bone: b.last().root_bone, actor: b.last().target };
            assert(channels_for(a, actor) + channels_for(b.drop_last(), actor).push(y) =~= (channels_for(a, actor)
                + channels_for(b.drop_last(), actor)).push(y));
        }
    }
}

#[verifier::spinoff_prover]
proof fn lemma_channels_for_permutation(s1: Seq<SavedAnimationChannel>, s2: Seq<SavedAnimationChannel>, actor: usize)
    requires
        s1.to_multiset() =~= s2.to_multiset(),
    ensures
        channels_for(s1, actor).to_multiset() =~= channels_for(s2, actor).to_multiset(),
    decreases s1.len(),
{
    broadcast use vstd::seq_lib::group_to_multiset_ensures;

    if s1.len() == 0 {
        assert(s2.to_multiset().len() == 0);
        assert(s2.len() == 0);
    } else {
        let x = s1.last();
        let init = s1.drop_last();
        assert(s1 =~= init.push(x));
        assert(s2.to_multiset().contains(x));
        vstd::seq_lib::to_multiset_contains(s2, x);
        let k = choose|k: int| 0 <= k < s2.len() && s2[k] == x;
        let rest = s2.remove(k);
        assert(rest.to_multiset() =~= s2.to_multiset().remove(x));
        assert(init.to_multiset() =~= s1.to_multiset().remove(x));
        lemma_channels_for_permutation(init, rest, actor);
        let front = s2.take(k);
        let back = s2.skip(k + 1);
        assert(rest =~= front + back);
        assert(s2 =~= front + seq![x] + back);
        lemma_channels_for_concat(front, back, actor);
        lemma_channels_for_concat(front + seq![x], back, actor);
        lemma_channels_for_concat(front, seq![x], actor);
        assert(seq![x].drop_last() =~= Seq::<SavedAnimationChannel>::empty());
        vstd::seq_lib::lemma_multiset_commutative(channels_for(front, actor), channels_for(back, actor));
        vstd::seq_lib::lemma_multiset_commutative(
            channels_for(front, actor) + channels_for(seq![x], actor),
            channels_for(back, actor),
        );
        vstd::seq_lib::lemma_multiset_commutative(channels_for(front, actor), channels_for(seq![x], actor));
        vstd::seq_lib::lemma_multiset_commutative(channels_for(init, actor), channels_for(seq![x], actor));
        lemma_channels_for_concat(init, seq![x], actor);
        assert(init + seq![x] =~= s1);
    }
}

proof fn lemma_channels_for_actor(runtime: ScriptRuntime, key: usize, channels: Seq<AnimationChannel>, actor: usize)
    ensures
        channels_for(actor_channels_of(runtime, key, channels), actor) == if key == actor {
            authored_channels(runtime, channels)
        } else {
            Seq::<AnimationChannel>::empty()
        },
    decreases channels.len(),
{
    if channels.len() > 0 {
        let rest = channels.subrange(1, channels.len() as int);
        lemma_channels_for_actor(runtime, key, rest, actor);
        lemma_authored_front(runtime, channels);
        if !transient(runtime, channels[0].actor) {
            let sc = SavedAnimationChannel { actor: key, root_bone: channels[0].root_bone, target: channels[0].actor };
            lemma_channels_for_concat(seq![sc], actor_channels_of(runtime, key, rest), actor);
            assert(seq![sc].drop_last() =~= Seq::<SavedAnimationChannel>::empty());
            assert(seq![sc].last() == sc);
            assert(channels_for(Seq::<SavedAnimationChannel>::empty(), actor) =~= Seq::<AnimationChannel>::empty());
            if key == actor {
                assert(AnimationChannel { root_bone: channels[0].root_bone, actor: channels[0].actor } == channels[0]);
                assert(channels_for(seq![sc], actor) =~= Seq::<AnimationChannel>::empty().push(
                    AnimationChannel { root_bone: channels[0].root_bone, actor: channels[0].actor },
                ));
                assert(channels_for(seq![sc], actor) =~= seq![channels[0]]);
            } else {
                assert(channels_for(seq![sc], actor) =~= Seq::<AnimationChannel>::empty());
                assert(Seq::<AnimationChannel>::empty() + Seq::<AnimationChannel>::empty() =~= Seq::<AnimationChannel>::empty());
            }
        }
    } else {
        assert(channels_for(Seq::<SavedAnimationChannel>::empty(), actor) =~= Seq::<AnimationChannel>::empty());
    }
}

proof fn lemma_authored_front(runtime: ScriptRuntime, channels: Seq<AnimationChannel>)
    requires
        channels.len() > 0,
    ensures
        authored_channels(runtime, channels) == if transient(runtime, channels[0].actor) {
            authored_channels(runtime, channels.subrange(1, channels.len() as int))
        } else {
            seq![channels[0]] + authored_channels(runtime, channels.subrange(1, channels.len() as int))
        },
    decreases channels.len(),
{
    let rest = channels.subrange(1, channels.len() as int);
    if channels.len() == 1 {
        assert(channels.drop_last() =~= Seq::<AnimationChannel>::empty());
        assert(rest =~= Seq::<AnimationChannel>::empty());
        assert(channels.last() == channels[0]);
        if !transient(runtime, channels[0].actor) {
            assert(Seq::<AnimationChannel>::empty().push(channels[0]) =~= seq![channels[0]] + Seq::<AnimationChannel>::empty());
        }
    } else {
        let init = channels.drop_last();
        lemma_authored_front(runtime, init);
        assert(init.subrange(1, init.len() as int) =~= rest.drop_last());
        assert(rest.last() == channels.last());
        assert(init[0] == channels[0]);
        if !transient(runtime, channels.last().actor) {
            assert((seq![channels[0]] + authored_channels(runtime, rest.drop_last())).push(channels.last()) =~= seq![
                channels[0],
            ] + authored_channels(runtime, rest.drop_last()).push(channels.last()));
        }
    }
}

proof fn lemma_channels_for_table(
    runtime: ScriptRuntime,
    table: Seq<(usize, Vec<AnimationChannel>)>,
    actor: usize,
)
    requires
        !transient(runtime, actor),
        forall|i: int, j: int| 0 <= i < j < table.len() ==> table[i].0 != table[j].0,
    ensures
        channels_for(channels_of(runtime, table), actor) == match table_get(table, actor) {
            Some(v) => authored_channels(runtime, v@),
            None => Seq::<AnimationChannel>::empty(),
        },
    decreases table.len(),
{
    if table.len() == 0 {
        assert(channels_for(Seq::<SavedAnimationChannel>::empty(), actor) =~= Seq::<AnimationChannel>::empty());
    } else {
        let rest = table.subrange(1, table.len() as int);
        assert forall|i: int, j: int| 0 <= i < j < rest.len() implies rest[i].0 != rest[j].0 by {
            assert(rest[i] == table[i + 1] && rest[j] == table[j + 1]);
        }
        lemma_channels_for_table(runtime, rest, actor);
        let key = table[0].0;
        if key == actor {
            assert forall|j: int| 0 <= j < rest.len() implies rest[j].0 != actor by {
                assert(rest[j] == table[j + 1]);
            }
            lemma_table_get_absent(rest, actor);
        }
        if !transient(runtime, key) {
            lemma_channels_for_concat(actor_channels_of(runtime, key, table[0].1@), channels_of(runtime, rest), actor);
            lemma_channels_for_actor(runtime, key, table[0].1@, actor);
            if key == actor {
                assert(authored_channels(runtime, table[0].1@) + Seq::<AnimationChannel>::empty() =~= authored_channels(
                    runtime,
                    table[0].1@,
                ));
            } else {
                assert(Seq::<AnimationChannel>::empty() + channels_for(channels_of(runtime, rest), actor) =~= channels_for(
                    channels_of(runtime, rest),
                    actor,
                ));
            }
        }
    }
}

proof fn lemma_table_get_absent<K, X>(table: Seq<(K, X)>, key: K)
    requires
        forall|j: int| 0 <= j < table.len() ==> table[j].0 != key,
    ensures
        table_get(table, key) is None,
    decreases table.len(),
{
    if table.len() > 0 {
        let rest = table.subrange(1, table.len() as int);
        assert forall|j: int| 0 <= j < rest.len() implies rest[j].0 != key by {
            assert(rest[j] == table[j + 1]);
        }
        lemma_table_get_absent(rest, key);
    }
}

proof fn lemma_split_channels(runtime: ScriptRuntime, channels: Seq<AnimationChannel>)
    ensures
        channels.to_multiset() =~= spawned_channels(runtime.actor_objects@, channels).to_multiset().add(
            authored_channels(runtime, channels).to_multiset(),
        ),
    decreases channels.len(),
{
    broadcast use vstd::seq_lib::group_to_multiset_ensures;

    if channels.len() == 0 {
        assert(channels.to_multiset() =~= vstd::multiset::Multiset::empty());
    } else {
        let init = channels.drop_last();
        lemma_split_channels(runtime, init);
        assert(channels =~= init.push(channels.last()));
    }
}

proof fn lemma_retained_channels(
    runtime: ScriptRuntime,
    table: Seq<(usize, Vec<AnimationChannel>)>,
    actor: usize,
)
    requires
        !transient(runtime, actor),
        forall|i: int, j: int| 0 <= i < j < table.len() ==> table[i].0 != table[j].0,
    ensures
        table_get(retained_channels(runtime.actor_objects@, table), actor) == match table_get(table, actor) {
            Some(v) => if spawned_channels(runtime.actor_objects@, v@).len() > 0 {
                Some(spawned_channels(runtime.actor_objects@, v@))
            } else {
                None
            },
            None => None,
        },
    decreases table.len(),
{
    let o = runtime.actor_objects@;
    if table.len() == 0 {
        assert(table_get(retained_channels(o, table), actor) is None);
    } else {
        let init = table.drop_last();
        assert forall|i: int, j: int| 0 <= i < j < init.len() implies init[i].0 != init[j].0 by {
            assert(init[i] == table[i] && init[j] == table[j]);
        }
        lemma_retained_channels(runtime, init, actor);
        let last = table.last();
        assert(table =~= init.push(last));
        lemma_table_get_push_any(init, last, actor);
        let kept = spawned_channels(o, last.1@);
        if spawned(o, last.0) || kept.len() > 0 {
            lemma_table_get_push_any(retained_channels(o, init), (last.0, kept), actor);
        }
        if last.0 == actor {
            assert forall|j: int| 0 <= j < init.len() implies init[j].0 != actor by {
                assert(init[j] == table[j]);
                assert(table[j].0 != table[table.len() - 1].0);
            }
            lemma_table_get_absent(init, actor);
        }
    }
}

proof fn lemma_written_channels(
    base: Option<Seq<AnimationChannel>>,
    saved: Seq<SavedAnimationChannel>,
    actors: Seq<ActorModel>,
    actor: usize,
)
    requires
        forall|k: int|
            0 <= k < saved.len() ==> table_get(identity_targets(actors), #[trigger] saved[k].actor) is Some && table_get(
                identity_targets(actors),
                saved[k].target,
            ) is Some,
    ensures
        channels_written(base, saved, identity_targets(actors), actor) == if base is None && channels_for(saved, actor).len() == 0 {
            None::<Seq<AnimationChannel>>
        } else {
            Some(
                match base {
                    Some(b) => b,
                    None => Seq::empty(),
                } + channels_for(saved, actor),
            )
        },
    decreases saved.len(),
{
    let t = identity_targets(actors);
    let b0 = match base {
        Some(b) => b,
        None => Seq::<AnimationChannel>::empty(),
    };
    if saved.len() == 0 {
        assert(b0 + Seq::<AnimationChannel>::empty() =~= b0);
    } else {
        let init = saved.drop_last();
        let last = saved.last();
        assert forall|k: int|
            0 <= k < init.len() implies table_get(t, #[trigger] init[k].actor) is Some && table_get(t, init[k].target) is Some by {
            assert(init[k] == saved[k]);
        }
        lemma_written_channels(base, init, actors, actor);
        assert(table_get(t, saved[saved.len() - 1].actor) is Some);
        lemma_identity_only(actors, last.actor, table_get(t, last.actor)->0);
        lemma_identity_only(actors, last.target, table_get(t, last.target)->0);
        if last.actor == actor {
            let y = AnimationChannel { root_bone: last.root_bone, actor: last.target };
            assert(channel_of(last, t) == y);
            assert(b0 + channels_for(init, actor).push(y) =~= (b0 + channels_for(init, actor)).push(y));
        }
    }
}

/// Restoring a save onto the runtime it was taken from, when the restore
/// succeeds, gives every authored actor back the channels of its skeleton,
/// perhaps in another order. This holds when the runtime's authored actors
/// can be told apart in a snapshot, every object in it is in the form the
/// reader gives back, and the channel table holds one entry per actor.
#[verifier::spinoff_prover]
pub proof fn lemma_restore_brings_back_channels(st: Stems, 
    runtime: ScriptRuntime,
    map: Seq<char>,
    snapshot: RuntimeModel,
    targets: Seq<(usize, usize)>,
    after: ScriptRuntime,
    actor: usize,
)
    requires
        forall|i: int, j: int|
            0 <= i < j < runtime.animation_channels@.len() ==> runtime.animation_channels@[i].0
                != runtime.animation_channels@[j].0,
        saved_game(st, runtime, map) is Some,
        runtime_canonical(saved_game(st, runtime, map)->0),
        authored_distinct(st, runtime),
        restore_plan_of(st, runtime, map, runtime_le(saved_game(st, runtime, map)->0)) == Some((snapshot, targets)),
        refs_resolve(snapshot, targets),
        restored(runtime, snapshot, targets, after),
        !transient(runtime, actor),
    ensures
        channels_at(after.animation_channels@, actor).to_multiset() =~= channels_at(
            runtime.animation_channels@,
            actor,
        ).to_multiset(),
{
    lemma_save_restores_onto_itself(st, runtime, map);
    let m = saved_game(st, runtime, map)->0;
    let s = m.actors;
    let o = runtime.actor_objects@;
    let table = runtime.animation_channels@;
    assert(snapshot == m && targets == identity_targets(s));
    let l = channels_of(runtime, table);
    let big = m.animation_channels;
    lemma_sorted_seq::<SavedAnimationChannel>(l);
    lemma_channels_for_permutation(big, l, actor);
    lemma_channels_for_table(runtime, table, actor);
    lemma_retained_channels(runtime, table, actor);
    lemma_written_channels(table_get(retained_channels(o, table), actor), big, s, actor);
    lemma_table_view(after.animation_channels@, channels_view(), actor);
    lemma_table_view(table, channels_view(), actor);
    let list = match table_get(table, actor) {
        Some(v) => v@,
        None => Seq::<AnimationChannel>::empty(),
    };
    lemma_split_channels(runtime, list);
    let sp = spawned_channels(o, list);
    let base = table_get(retained_channels(o, table), actor);
    let b0 = match base {
        Some(b) => b,
        None => Seq::<AnimationChannel>::empty(),
    };
    if table_get(table, actor) is None {
        assert(sp =~= Seq::<AnimationChannel>::empty());
    }
    assert(b0 == sp) by {
        if let Some(v) = table_get(table, actor) {
            if spawned_channels(o, v@).len() == 0 {
                assert(spawned_channels(o, v@) =~= Seq::<AnimationChannel>::empty());
            }
        }
    }
    assert(channels_at(after.animation_channels@, actor) =~= sp + channels_for(big, actor));
    vstd::seq_lib::lemma_multiset_commutative(sp, channels_for(big, actor));
    assert(channels_at(table, actor) == list);
}

} // verus!
