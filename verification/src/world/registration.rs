//! A snapshot does not depend on the order of the entries of a runtime's
//! tables keyed by actor.
use vstd::prelude::*;
use crate::order::{lemma_sorted_seq, sorted_seq, sorted_views, Ordered};
use crate::save::model::{ActorModel, SavedActor};
use crate::value::ObjectId;
use crate::world::convert::Stems;
use crate::world::capture::{
    actor_channels_of, actor_of, actors_of, channels_of, commands_of, instances_of, kept, saved_game, snapshot_of,
    table_get, transient,
};
use crate::world::roundtrip::{
    authored_entry, lemma_actors_of_members, lemma_table_get_index, registered_once, saved_from,
};
use crate::world::capture::lemma_actor_of_identity;
use crate::world::runtime::{AnimationChannel, AnimationCommand, InstanceState, ScriptRuntime};

verus! {

/// Each key of a table keyed by actor occurs once.
pub open spec fn keys_once<X>(table: Seq<(usize, X)>) -> bool {
    forall|i: int, j: int| 0 <= i < j < table.len() ==> table[i].0 != table[j].0
}

/// Two tables keyed by actor hold the same entries, each key once: they
/// differ at most in the order of their entries.
pub open spec fn same_entries<X>(t1: Seq<(usize, X)>, t2: Seq<(usize, X)>) -> bool {
    &&& keys_once(t1)
    &&& keys_once(t2)
    &&& forall|e: (usize, X)| t1.contains(e) <==> t2.contains(e)
}

proof fn lemma_keyed_get<X>(table: Seq<(usize, X)>, i: int)
    requires
        keys_once(table),
        0 <= i < table.len(),
    ensures
        table_get(table, table[i].0) == Some(table[i].1),
    decreases table.len(),
{
    if i > 0 {
        let rest = table.subrange(1, table.len() as int);
        assert(table[0].0 != table[i].0);
        assert forall|a: int, b: int| 0 <= a < b < rest.len() implies rest[a].0 != rest[b].0 by {
            assert(rest[a] == table[a + 1] && rest[b] == table[b + 1]);
        }
        lemma_keyed_get(rest, i - 1);
        assert(rest[i - 1] == table[i]);
    }
}

/// Two tables with the same entries find the same entry for every actor.
proof fn lemma_same_entries_get<X>(t1: Seq<(usize, X)>, t2: Seq<(usize, X)>, actor: usize)
    requires
        same_entries(t1, t2),
    ensures
        table_get(t1, actor) == table_get(t2, actor),
{
    if let Some(x) = table_get(t1, actor) {
        lemma_table_get_index(t1, actor);
        let i = choose|i: int| 0 <= i < t1.len() && #[trigger] t1[i] == (actor, x);
        assert(t1.contains(t1[i]));
        assert(t2.contains((actor, x)));
        let j = choose|j: int| 0 <= j < t2.len() && t2[j] == (actor, x);
        lemma_keyed_get(t2, j);
    } else if let Some(y) = table_get(t2, actor) {
        lemma_table_get_index(t2, actor);
        let j = choose|j: int| 0 <= j < t2.len() && #[trigger] t2[j] == (actor, y);
        assert(t2.contains(t2[j]));
        assert(t1.contains((actor, y)));
        let i = choose|i: int| 0 <= i < t1.len() && t1[i] == (actor, y);
        lemma_keyed_get(t1, i);
    }
}

/// Whether two runtimes differ at most in the order of the entries of their
/// tables keyed by actor: each holds the same entries, each actor once,
/// and everything else is the same.
pub open spec fn same_up_to_order(r1: ScriptRuntime, r2: ScriptRuntime) -> bool {
    &&& same_entries(r1.actor_objects@, r2.actor_objects@)
    &&& same_entries(r1.actor_classes@, r2.actor_classes@)
    &&& same_entries(r1.instances@, r2.instances@)
    &&& same_entries(r1.actor_states@, r2.actor_states@)
    &&& same_entries(r1.state_revisions@, r2.state_revisions@)
    &&& same_entries(r1.state_frames@, r2.state_frames@)
    &&& same_entries(r1.timers@, r2.timers@)
    &&& r2 == (ScriptRuntime {
        actor_objects: r2.actor_objects,
        actor_classes: r2.actor_classes,
        instances: r2.instances,
        actor_states: r2.actor_states,
        state_revisions: r2.state_revisions,
        state_frames: r2.state_frames,
        timers: r2.timers,
        ..r1
    })
}

proof fn lemma_kept_same(r1: ScriptRuntime, r2: ScriptRuntime, actors: Seq<usize>)
    requires
        forall|a: usize| #[trigger] transient(r1, a) == transient(r2, a),
    ensures
        kept(r1, actors) == kept(r2, actors),
    decreases actors.len(),
{
    if actors.len() > 0 {
        lemma_kept_same(r1, r2, actors.subrange(1, actors.len() as int));
        assert(transient(r1, actors[0]) == transient(r2, actors[0]));
    }
}

proof fn lemma_commands_same(r1: ScriptRuntime, r2: ScriptRuntime, commands: Seq<(usize, AnimationCommand)>)
    requires
        forall|a: usize| #[trigger] transient(r1, a) == transient(r2, a),
    ensures
        commands_of(r1, commands) == commands_of(r2, commands),
    decreases commands.len(),
{
    if commands.len() > 0 {
        lemma_commands_same(r1, r2, commands.subrange(1, commands.len() as int));
        assert(transient(r1, commands[0].0) == transient(r2, commands[0].0));
    }
}

proof fn lemma_actor_channels_same(r1: ScriptRuntime, r2: ScriptRuntime, actor: usize, channels: Seq<AnimationChannel>)
    requires
        forall|a: usize| #[trigger] transient(r1, a) == transient(r2, a),
    ensures
        actor_channels_of(r1, actor, channels) == actor_channels_of(r2, actor, channels),
    decreases channels.len(),
{
    if channels.len() > 0 {
        lemma_actor_channels_same(r1, r2, actor, channels.subrange(1, channels.len() as int));
        assert(transient(r1, channels[0].actor) == transient(r2, channels[0].actor));
    }
}

proof fn lemma_channels_same(r1: ScriptRuntime, r2: ScriptRuntime, channels: Seq<(usize, Vec<AnimationChannel>)>)
    requires
        forall|a: usize| #[trigger] transient(r1, a) == transient(r2, a),
    ensures
        channels_of(r1, channels) == channels_of(r2, channels),
    decreases channels.len(),
{
    if channels.len() > 0 {
        lemma_channels_same(r1, r2, channels.subrange(1, channels.len() as int));
        lemma_actor_channels_same(r1, r2, channels[0].0, channels[0].1@);
        assert(transient(r1, channels[0].0) == transient(r2, channels[0].0));
    }
}

proof fn lemma_instances_same(st: Stems, 
    r1: ScriptRuntime,
    r2: ScriptRuntime,
    instances: Seq<(ObjectId, ObjectId, InstanceState)>,
)
    requires
        r1.handle_objects@ == r2.handle_objects@,
    ensures
        instances_of(st, r1, instances) == instances_of(st, r2, instances),
    decreases instances.len(),
{
    if instances.len() > 0 {
        lemma_instances_same(st, r1, r2, instances.subrange(1, instances.len() as int));
    }
}

proof fn lemma_actor_of_same(st: Stems, r1: ScriptRuntime, r2: ScriptRuntime, actor: usize, object: ObjectId)
    requires
        same_up_to_order(r1, r2),
    ensures
        actor_of(st, r1, actor, object) == actor_of(st, r2, actor, object),
{
    lemma_same_entries_get(r1.actor_classes@, r2.actor_classes@, actor);
    lemma_same_entries_get(r1.instances@, r2.instances@, actor);
    lemma_same_entries_get(r1.actor_states@, r2.actor_states@, actor);
    lemma_same_entries_get(r1.state_revisions@, r2.state_revisions@, actor);
    lemma_same_entries_get(r1.state_frames@, r2.state_frames@, actor);
    lemma_same_entries_get(r1.timers@, r2.timers@, actor);
    reveal(actor_of);
}

proof fn lemma_actors_same_runtime(st: Stems, r1: ScriptRuntime, r2: ScriptRuntime, objects: Seq<(usize, ObjectId)>)
    requires
        same_up_to_order(r1, r2),
    ensures
        actors_of(st, r1, objects) == actors_of(st, r2, objects),
    decreases objects.len(),
{
    if objects.len() > 0 {
        lemma_actors_same_runtime(st, r1, r2, objects.subrange(1, objects.len() as int));
        lemma_actor_of_same(st, r1, r2, objects[0].0, objects[0].1);
    }
}

/// The actor list of a table converts exactly when every authored entry
/// converts.
proof fn lemma_actors_of_some(st: Stems, runtime: ScriptRuntime, objects: Seq<(usize, ObjectId)>)
    ensures
        actors_of(st, runtime, objects) is Some <==> forall|i: int|
            0 <= i < objects.len() && authored_entry(#[trigger] objects[i]) ==> actor_of(st, 
                runtime,
                objects[i].0,
                objects[i].1,
            ) is Some,
    decreases objects.len(),
{
    if objects.len() > 0 {
        let rest = objects.subrange(1, objects.len() as int);
        lemma_actors_of_some(st, runtime, rest);
        if forall|i: int|
            0 <= i < objects.len() && authored_entry(#[trigger] objects[i]) ==> actor_of(st, 
                runtime,
                objects[i].0,
                objects[i].1,
            ) is Some {
            assert forall|i: int|
                0 <= i < rest.len() && authored_entry(#[trigger] rest[i]) implies actor_of(st, 
                    runtime,
                    rest[i].0,
                    rest[i].1,
                ) is Some by {
                assert(rest[i] == objects[i + 1]);
            }
        } else {
            let i = choose|i: int|
                0 <= i < objects.len() && authored_entry(#[trigger] objects[i]) && actor_of(st, 
                    runtime,
                    objects[i].0,
                    objects[i].1,
                ) is None;
            if i > 0 {
                assert(rest[i - 1] == objects[i]);
            }
        }
    }
}

/// The actors converted from a table whose actors are registered once have
/// distinct indices.
proof fn lemma_actors_of_indices(st: Stems, runtime: ScriptRuntime, objects: Seq<(usize, ObjectId)>)
    requires
        actors_of(st, runtime, objects) is Some,
        registered_once(objects),
    ensures
        actors_of(st, runtime, objects)->0.no_duplicates(),
        forall|q1: int, q2: int|
            0 <= q1 < q2 < actors_of(st, runtime, objects)->0.len() ==> (#[trigger] actors_of(st, runtime, objects)->0[q1]).actor
                != (#[trigger] actors_of(st, runtime, objects)->0[q2]).actor,
    decreases objects.len(),
{
    if objects.len() > 0 {
        let rest = objects.subrange(1, objects.len() as int);
        assert forall|i: int, j: int| 0 <= i < j < rest.len() implies rest[i].0 != rest[j].0 by {
            assert(rest[i] == objects[i + 1] && rest[j] == objects[j + 1]);
        }
        lemma_actors_of_indices(st, runtime, rest);
        lemma_actors_of_members(st, runtime, rest);
        let r = actors_of(st, runtime, rest)->0;
        let l = actors_of(st, runtime, objects)->0;
        if authored_entry(objects[0]) {
            let a = actor_of(st, runtime, objects[0].0, objects[0].1)->0;
            lemma_actor_of_identity(st, runtime, objects[0].0, objects[0].1);
            assert(l =~= seq![a] + r);
            assert forall|q1: int, q2: int| 0 <= q1 < q2 < l.len() implies (#[trigger] l[q1]).actor != (
            #[trigger] l[q2]).actor by {
                if q1 == 0 {
                    assert(l[q2] == r[q2 - 1]);
                    assert(saved_from(st, runtime, rest, r[q2 - 1]));
                    let k = choose|k: int|
                        0 <= k < rest.len() && authored_entry(rest[k]) && actor_of(st, runtime, rest[k].0, rest[k].1)
                            == Some(r[q2 - 1]) && #[trigger] rest[k] == rest[k];
                    assert(rest[k] == objects[k + 1]);
                    lemma_actor_of_identity(st, runtime, rest[k].0, rest[k].1);
                    assert(objects[0].0 != objects[k + 1].0);
                } else {
                    assert(l[q1] == r[q1 - 1] && l[q2] == r[q2 - 1]);
                }
            }
        } else {
            assert(l == r);
        }
        assert forall|q1: int, q2: int| 0 <= q1 < l.len() && 0 <= q2 < l.len() && q1 != q2 implies l[q1] != l[q2] by {
            if q1 < q2 {
                assert(l[q1].actor != l[q2].actor);
            } else {
                assert(l[q2].actor != l[q1].actor);
            }
        }
    }
}

/// Two sorted sequences of saved actors with the same items, one of them
/// with distinct actor indices, are the same sequence.
proof fn lemma_sorted_actors_unique(a: Seq<ActorModel>, b: Seq<ActorModel>)
    requires
        sorted_views::<SavedActor>(a),
        sorted_views::<SavedActor>(b),
        a.to_multiset() =~= b.to_multiset(),
        forall|i: int, j: int| 0 <= i < j < a.len() ==> (#[trigger] a[i]).actor != (#[trigger] a[j]).actor,
    ensures
        a == b,
    decreases a.len(),
{
    broadcast use vstd::seq_lib::group_to_multiset_ensures;

    if a.len() == 0 {
        if b.len() > 0 {
            assert(b.to_multiset().contains(b[0]));
        }
        assert(a =~= b);
    } else {
        assert(a.to_multiset().contains(a[0]));
        assert(b.to_multiset().contains(a[0]));
        let k = choose|k: int| 0 <= k < b.len() && b[k] == a[0];
        assert(b.to_multiset().contains(b[0]));
        assert(a.to_multiset().contains(b[0]));
        let j = choose|j: int| 0 <= j < a.len() && a[j] == b[0];
        if j > 0 {
            assert(SavedActor::ord_le(a[0], a[j]));
        }
        if k > 0 {
            assert(SavedActor::ord_le(b[0], b[k]));
        }
        if j != 0 {
            assert(a[0].actor != a[j].actor);
        }
        assert(b[0] == a[0]);
        vstd::seq_lib::to_multiset_remove(a, 0);
        vstd::seq_lib::to_multiset_remove(b, 0);
        let ta = a.remove(0);
        let tb = b.remove(0);
        assert(ta.to_multiset() =~= tb.to_multiset());
        assert forall|x: int, y: int| 0 <= x < y < ta.len() implies SavedActor::ord_le(ta[x], ta[y]) by {
            assert(ta[x] == a[x + 1] && ta[y] == a[y + 1]);
        }
        assert forall|x: int, y: int| 0 <= x < y < tb.len() implies SavedActor::ord_le(tb[x], tb[y]) by {
            assert(tb[x] == b[x + 1] && tb[y] == b[y + 1]);
        }
        assert forall|x: int, y: int| 0 <= x < y < ta.len() implies (#[trigger] ta[x]).actor != (
        #[trigger] ta[y]).actor by {
            assert(ta[x] == a[x + 1] && ta[y] == a[y + 1]);
        }
        lemma_sorted_actors_unique(ta, tb);
        assert(a =~= seq![a[0]] + ta);
        assert(b =~= seq![b[0]] + tb);
    }
}

/// A snapshot does not depend on the order in which a runtime's tables
/// keyed by actor hold their entries: two runtimes whose actor, class,
/// instance, state, revision, frame and timer tables hold the same entries,
/// each actor once, and that agree in everything else, save the same
/// snapshot.
#[verifier::spinoff_prover]
#[verifier::rlimit(40)]
pub proof fn lemma_save_ignores_table_order(st: Stems, r1: ScriptRuntime, r2: ScriptRuntime, map: Seq<char>)
    requires
        same_up_to_order(r1, r2),
    ensures
        saved_game(st, r2, map) == saved_game(st, r1, map),
{
    let o1 = r1.actor_objects@;
    let o2 = r2.actor_objects@;
    assert forall|a: usize| #[trigger] transient(r1, a) == transient(r2, a) by {
        lemma_same_entries_get(o1, o2, a);
    }
    assert(registered_once(o1) && registered_once(o2));
    lemma_kept_same(r1, r2, r1.animating@);
    lemma_kept_same(r1, r2, r1.player_probe_touching@);
    lemma_commands_same(r1, r2, r1.animation_commands@);
    lemma_channels_same(r1, r2, r1.animation_channels@);
    lemma_instances_same(st, r1, r2, r1.object_instances@);
    lemma_actors_same_runtime(st, r1, r2, o2);
    // The actors converted from either table are the same items.
    lemma_actors_of_some(st, r1, o1);
    lemma_actors_of_some(st, r1, o2);
    assert((actors_of(st, r1, o1) is Some) == (actors_of(st, r1, o2) is Some)) by {
        if actors_of(st, r1, o1) is Some {
            assert forall|i: int| 0 <= i < o2.len() && authored_entry(#[trigger] o2[i]) implies actor_of(st, 
                r1,
                o2[i].0,
                o2[i].1,
            ) is Some by {
                assert(o2.contains(o2[i]));
                let k = choose|k: int| 0 <= k < o1.len() && o1[k] == o2[i];
            }
        }
        if actors_of(st, r1, o2) is Some {
            assert forall|i: int| 0 <= i < o1.len() && authored_entry(#[trigger] o1[i]) implies actor_of(st, 
                r1,
                o1[i].0,
                o1[i].1,
            ) is Some by {
                assert(o1.contains(o1[i]));
                let k = choose|k: int| 0 <= k < o2.len() && o2[k] == o1[i];
            }
        }
    }
    if actors_of(st, r1, o1) is Some {
        let l1 = actors_of(st, r1, o1)->0;
        let l2 = actors_of(st, r1, o2)->0;
        lemma_actors_of_members(st, r1, o1);
        lemma_actors_of_members(st, r1, o2);
        lemma_actors_of_indices(st, r1, o1);
        lemma_actors_of_indices(st, r1, o2);
        assert forall|x: ActorModel| l1.contains(x) <==> l2.contains(x) by {
            if l1.contains(x) {
                let q = choose|q: int| 0 <= q < l1.len() && l1[q] == x;
                assert(saved_from(st, r1, o1, l1[q]));
                let i = choose|i: int|
                    0 <= i < o1.len() && authored_entry(o1[i]) && actor_of(st, r1, o1[i].0, o1[i].1) == Some(l1[q])
                        && #[trigger] o1[i] == o1[i];
                assert(o1.contains(o1[i]));
                let k = choose|k: int| 0 <= k < o2.len() && o2[k] == o1[i];
                assert(authored_entry(o2[k]));
            }
            if l2.contains(x) {
                let q = choose|q: int| 0 <= q < l2.len() && l2[q] == x;
                assert(saved_from(st, r1, o2, l2[q]));
                let i = choose|i: int|
                    0 <= i < o2.len() && authored_entry(o2[i]) && actor_of(st, r1, o2[i].0, o2[i].1) == Some(l2[q])
                        && #[trigger] o2[i] == o2[i];
                assert(o2.contains(o2[i]));
                let k = choose|k: int| 0 <= k < o1.len() && o1[k] == o2[i];
                assert(authored_entry(o1[k]));
            }
        }
        l1.lemma_multiset_has_no_duplicates();
        l2.lemma_multiset_has_no_duplicates();
        assert(l1.to_multiset() =~= l2.to_multiset()) by {
            broadcast use vstd::seq_lib::group_to_multiset_ensures;

            assert forall|x: ActorModel| l1.to_multiset().count(x) == l2.to_multiset().count(x) by {
                if l1.contains(x) {
                    assert(l1.to_multiset().contains(x));
                    assert(l2.to_multiset().contains(x));
                }
            }
        }
        let s1 = sorted_seq::<SavedActor>(l1);
        let s2 = sorted_seq::<SavedActor>(l2);
        lemma_sorted_seq::<SavedActor>(l1);
        lemma_sorted_seq::<SavedActor>(l2);
        assert forall|x: ActorModel| s1.to_multiset().contains(x) implies s1.to_multiset().count(x) == 1 by {
            assert(l1.to_multiset().contains(x));
        }
        s1.lemma_multiset_has_no_duplicates_conv();
        assert forall|i: int, j: int| 0 <= i < j < s1.len() implies (#[trigger] s1[i]).actor != (
        #[trigger] s1[j]).actor by {
            broadcast use vstd::seq_lib::group_to_multiset_ensures;

            assert(s1.to_multiset().contains(s1[i]) && s1.to_multiset().contains(s1[j]));
            assert(l1.contains(s1[i]) && l1.contains(s1[j]));
            let p = choose|p: int| 0 <= p < l1.len() && l1[p] == s1[i];
            let q = choose|q: int| 0 <= q < l1.len() && l1[q] == s1[j];
            assert(s1[i] != s1[j]);
            assert(p != q);
            if p < q {
                assert(l1[p].actor != l1[q].actor);
            } else {
                assert(l1[q].actor != l1[p].actor);
            }
        }
        lemma_sorted_actors_unique(s1, s2);
    }
    assert(snapshot_of(st, r2, map) == snapshot_of(st, r1, map));
}

} // verus!
