//! Writing a restore plan into the runtime: the tables keyed by actor keep
//! the entries of run-time actors and take the saved entries of the actors
//! the snapshot restores onto.
use vstd::prelude::*;
use crate::save::model::{
    ActorModel, CommandModel, SavedActor, SavedAnimationChannel, SavedAnimationCommand, actors_model,
    commands_model, events_model, option_string_model, RuntimeModel, SavedRuntime,
};
use crate::error::{DispatchError, save_error};
use crate::state::{DisabledEvents, DisabledScope, set_event_disabled};
use crate::text::lower;
use crate::value::ObjectId;
use crate::world::capture::{find_entry, lists_actor, spawned, spawned_actor, table_get};
use crate::world::restore::{RestorePlan, recorded_map, restore_latent, restore_plan_of, restored_latent, unmatched_error, plan_read_from};
use crate::world::convert::Stems;
use crate::text::same_ignoring_ascii_case;
use crate::world::runtime::{ActorTimer, AnimationChannel, AnimationCommand, AnimationModel, ScriptRuntime};

verus! {

/// The entries of a table keyed by actor that belong to run-time actors,
/// in their order.
pub open spec fn spawned_entries<X>(objects: Seq<(usize, ObjectId)>, table: Seq<(usize, X)>) -> Seq<
    (usize, X),
>
    decreases table.len(),
{
    if table.len() == 0 {
        Seq::empty()
    } else {
        let rest = spawned_entries(objects, table.drop_last());
        if spawned(objects, table.last().0) {
            rest.push(table.last())
        } else {
            rest
        }
    }
}

/// The listed actors that were spawned at run time, in their order.
pub open spec fn spawned_list(objects: Seq<(usize, ObjectId)>, actors: Seq<usize>) -> Seq<usize>
    decreases actors.len(),
{
    if actors.len() == 0 {
        Seq::empty()
    } else {
        let rest = spawned_list(objects, actors.drop_last());
        if spawned(objects, actors.last()) {
            rest.push(actors.last())
        } else {
            rest
        }
    }
}

/// Keeps the entries of run-time actors.
pub fn retain_spawned<X>(objects: &Vec<(usize, ObjectId)>, table: &mut Vec<(usize, X)>)
    ensures
        final(table)@ == spawned_entries(objects@, old(table)@),
{
    let ghost all = table@;
    let n = table.len();
    let mut i: usize = 0;
    let mut j: usize = 0;
    assert(all.take(0) =~= Seq::<(usize, X)>::empty());
    assert(all.subrange(0, all.len() as int) =~= all);
    while j < n
        invariant
            n == all.len(),
            0 <= j <= all.len(),
            i <= j,
            i == spawned_entries(objects@, all.take(j as int)).len(),
            table@ == spawned_entries(objects@, all.take(j as int)) + all.subrange(j as int, all.len() as int),
        decreases all.len() - j,
    {
        let ghost kept = spawned_entries(objects@, all.take(j as int));
        assert(all.take(j + 1).drop_last() =~= all.take(j as int));
        assert(all.take(j + 1).last() == all[j as int]);
        assert(table@[i as int] == all[j as int]);
        if spawned_actor(objects, table[i].0) {
            assert(kept.push(all[j as int]) + all.subrange(j + 1, all.len() as int) =~= table@);
            i = i + 1;
        } else {
            table.remove(i);
            assert(kept + all.subrange(j + 1, all.len() as int) =~= table@);
        }
        j = j + 1;
    }
    assert(all.take(all.len() as int) =~= all);
    assert(table@ =~= spawned_entries(objects@, all));
}

/// Keeps the listed actors that were spawned at run time.
pub fn retain_spawned_list(objects: &Vec<(usize, ObjectId)>, actors: &mut Vec<usize>)
    ensures
        final(actors)@ == spawned_list(objects@, old(actors)@),
{
    let ghost all = actors@;
    let n = actors.len();
    let mut i: usize = 0;
    let mut j: usize = 0;
    assert(all.take(0) =~= Seq::<usize>::empty());
    assert(all.subrange(0, all.len() as int) =~= all);
    while j < n
        invariant
            n == all.len(),
            0 <= j <= all.len(),
            i <= j,
            i == spawned_list(objects@, all.take(j as int)).len(),
            actors@ == spawned_list(objects@, all.take(j as int)) + all.subrange(j as int, all.len() as int),
        decreases all.len() - j,
    {
        let ghost kept = spawned_list(objects@, all.take(j as int));
        assert(all.take(j + 1).drop_last() =~= all.take(j as int));
        assert(all.take(j + 1).last() == all[j as int]);
        assert(actors@[i as int] == all[j as int]);
        if spawned_actor(objects, actors[i]) {
            assert(kept.push(all[j as int]) + all.subrange(j + 1, all.len() as int) =~= actors@);
            i = i + 1;
        } else {
            actors.remove(i);
            assert(kept + all.subrange(j + 1, all.len() as int) =~= actors@);
        }
        j = j + 1;
    }
    assert(all.take(all.len() as int) =~= all);
    assert(actors@ =~= spawned_list(objects@, all));
}

pub(crate) proof fn lemma_table_get_update<K, X>(table: Seq<(K, X)>, i: int, entry: (K, X))
    requires
        0 <= i < table.len(),
        table[i].0 == entry.0,
        forall|j: int| 0 <= j < i ==> table[j].0 != entry.0,
    ensures
        forall|a: K|
            #[trigger] table_get(table.update(i, entry), a) == if a == entry.0 {
                Some(entry.1)
            } else {
                table_get(table, a)
            },
    decreases table.len(),
{
    let t = table.update(i, entry);
    let rest = table.subrange(1, table.len() as int);
    if i > 0 {
        lemma_table_get_update(rest, i - 1, entry);
        assert(t.subrange(1, t.len() as int) =~= rest.update(i - 1, entry));
    } else {
        assert(t.subrange(1, t.len() as int) =~= rest);
    }
    assert forall|a: K|
        #[trigger] table_get(t, a) == if a == entry.0 {
            Some(entry.1)
        } else {
            table_get(table, a)
        } by {
        if i == 0 {
            assert(t[0] == entry);
        } else {
            assert(t[0] == table[0]);
            assert(table_get(t.subrange(1, t.len() as int), a) == table_get(rest.update(i - 1, entry), a));
        }
    }
}

pub(crate) proof fn lemma_table_get_push<K, X>(table: Seq<(K, X)>, entry: (K, X))
    requires
        forall|j: int| 0 <= j < table.len() ==> table[j].0 != entry.0,
    ensures
        forall|a: K|
            #[trigger] table_get(table.push(entry), a) == if a == entry.0 {
                Some(entry.1)
            } else {
                table_get(table, a)
            },
    decreases table.len(),
{
    let t = table.push(entry);
    if table.len() > 0 {
        let rest = table.subrange(1, table.len() as int);
        lemma_table_get_push(rest, entry);
        assert(t.subrange(1, t.len() as int) =~= rest.push(entry));
        assert forall|a: K|
            #[trigger] table_get(t, a) == if a == entry.0 {
                Some(entry.1)
            } else {
                table_get(table, a)
            } by {
            assert(t[0] == table[0]);
            assert(table_get(t.subrange(1, t.len() as int), a) == table_get(rest.push(entry), a));
        }
    } else {
        assert(t.subrange(1, t.len() as int) =~= Seq::<(K, X)>::empty());
        assert forall|a: K|
            #[trigger] table_get(t, a) == if a == entry.0 {
                Some(entry.1)
            } else {
                table_get(table, a)
            } by {
            assert(t[0] == entry);
            assert(table_get(Seq::<(K, X)>::empty(), a) == None::<X>);
        }
    }
}

/// A table with an entry for a key has an entry for it.
pub(crate) proof fn lemma_table_get_found<K, X>(table: Seq<(K, X)>, i: int)
    requires
        0 <= i < table.len(),
    ensures
        table_get(table, table[i].0) is Some,
    decreases table.len(),
{
    if i > 0 && table[0].0 != table[i].0 {
        let rest = table.subrange(1, table.len() as int);
        lemma_table_get_found(rest, i - 1);
        assert(rest[i - 1] == table[i]);
    }
}

/// Sets the entry for `actor`, leaving the others.
pub fn put<X>(table: &mut Vec<(usize, X)>, actor: usize, value: X)
    ensures
        forall|a: usize|
            #[trigger] table_get(final(table)@, a) == if a == actor {
                Some(value)
            } else {
                table_get(old(table)@, a)
            },
{
    let ghost before = table@;
    match find_entry(table, actor) {
        Some(i) => {
            proof {
                lemma_table_get_update(before, i as int, (actor, value));
            }
            table.set(i, (actor, value));
        },
        None => {
            proof {
                lemma_table_get_push(before, (actor, value));
            }
            table.push((actor, value));
        },
    }
}

/// A table keyed by actor, holding its entries' views.
pub open spec fn table_view<X, Y>(table: Seq<(usize, X)>, view: spec_fn(X) -> Y) -> Seq<(usize, Y)> {
    table.map_values(|e: (usize, X)| (e.0, view(e.1)))
}

/// What a table's view holds for an actor is the view of its entry.
pub proof fn lemma_table_view<X, Y>(table: Seq<(usize, X)>, view: spec_fn(X) -> Y, actor: usize)
    ensures
        table_get(table_view(table, view), actor) == match table_get(table, actor) {
            Some(x) => Some(view(x)),
            None => None,
        },
    decreases table.len(),
{
    let v = table_view(table, view);
    if table.len() > 0 {
        let rest = table.subrange(1, table.len() as int);
        lemma_table_view(rest, view, actor);
        assert(v.subrange(1, v.len() as int) =~= table_view(rest, view));
        assert(v[0] == (table[0].0, view(table[0].1)));
    }
}

/// The view of an optional state name.
pub open spec fn state_view() -> spec_fn(Option<String>) -> Option<Seq<char>> {
    |s: Option<String>| option_string_model(s)
}

/// What an actor table holds for `actor` once the entries `entry` gives for
/// the saved actors have been written over `base`, in order: the entry of
/// the last saved actor restored onto `actor` that gives one.
pub open spec fn written<X>(
    base: Option<X>,
    actors: Seq<ActorModel>,
    targets: Seq<(usize, usize)>,
    actor: usize,
    entry: spec_fn(ActorModel) -> Option<X>,
) -> Option<X>
    decreases actors.len(),
{
    if actors.len() == 0 {
        base
    } else {
        let last = actors.last();
        if table_get(targets, last.actor) == Some(actor) && entry(last) is Some {
            entry(last)
        } else {
            written(base, actors.drop_last(), targets, actor, entry)
        }
    }
}

/// The state a saved actor restores.
pub open spec fn state_entry() -> spec_fn(ActorModel) -> Option<Option<Seq<char>>> {
    |m: ActorModel| Some(m.state)
}

/// The state revision a saved actor restores.
pub open spec fn revision_entry() -> spec_fn(ActorModel) -> Option<u64> {
    |m: ActorModel| Some(m.state_revision)
}

/// The timer a saved actor restores, if it has one.
pub open spec fn timer_entry() -> spec_fn(ActorModel) -> Option<ActorTimer> {
    |m: ActorModel|
        match m.timer {
            Some(t) => Some(ActorTimer { remaining: t.remaining, rate: t.rate, looping: t.looping }),
            None => None,
        }
}

/// Whether every saved actor has an actor to restore onto.
pub open spec fn actors_targeted(actors: Seq<ActorModel>, targets: Seq<(usize, usize)>) -> bool {
    forall|i: int| 0 <= i < actors.len() ==> table_get(targets, #[trigger] actors[i].actor) is Some
}

/// Whether a saved actor destroyed before the save restores onto `actor`.
pub open spec fn destroyed_written(actors: Seq<ActorModel>, targets: Seq<(usize, usize)>, actor: usize) -> bool {
    exists|i: int|
        0 <= i < actors.len() && #[trigger] actors[i].destroyed && table_get(targets, actors[i].actor)
            == Some(actor)
}

/// The actor a saved actor index restores onto.
pub fn target_of(targets: &Vec<(usize, usize)>, actor: usize) -> (r: usize)
    requires
        table_get(targets@, actor) is Some,
    ensures
        table_get(targets@, actor) == Some(r),
{
    let i = find_entry(targets, actor).unwrap();
    targets[i].1
}

proof fn lemma_written_step<X>(
    base: Option<X>,
    actors: Seq<ActorModel>,
    targets: Seq<(usize, usize)>,
    i: int,
    entry: spec_fn(ActorModel) -> Option<X>,
    target: usize,
    a: usize,
)
    requires
        0 <= i < actors.len(),
        table_get(targets, actors[i].actor) == Some(target),
    ensures
        written(base, actors.take(i + 1), targets, a, entry) == if a == target && entry(actors[i]) is Some {
            entry(actors[i])
        } else {
            written(base, actors.take(i), targets, a, entry)
        },
{
    assert(actors.take(i + 1).drop_last() =~= actors.take(i));
    assert(actors.take(i + 1).last() == actors[i]);
}

/// Writes each saved actor's state onto the actor it restores onto.
pub fn write_states(
    states: &mut Vec<(usize, Option<String>)>,
    actors: &Vec<SavedActor>,
    targets: &Vec<(usize, usize)>,
)
    requires
        actors_targeted(actors_model(actors@), targets@),
    ensures
        forall|a: usize|
            #[trigger] table_get(table_view(final(states)@, state_view()), a) == written(
                table_get(table_view(old(states)@, state_view()), a),
                actors_model(actors@),
                targets@,
                a,
                state_entry(),
            ),
{
    let ghost base = states@;
    let ghost all = actors_model(actors@);
    let mut i: usize = 0;
    while i < actors.len()
        invariant
            0 <= i <= actors@.len(),
            all == actors_model(actors@),
            actors_targeted(all, targets@),
            forall|a: usize|
                #[trigger] table_get(table_view(states@, state_view()), a) == written(
                    table_get(table_view(base, state_view()), a),
                    all.take(i as int),
                    targets@,
                    a,
                    state_entry(),
                ),
        decreases actors@.len() - i,
    {
        assert(all[i as int] == actors@[i as int]@);
        assert(table_get(targets@, all[i as int].actor) is Some);
        let target = target_of(targets, actors[i].actor);
        let state = match &actors[i].state {
            Some(s) => Some(s.clone()),
            None => None,
        };
        let ghost before = states@;
        put(states, target, state);
        proof {
            assert forall|a: usize|
                #[trigger] table_get(table_view(states@, state_view()), a) == written(
                    table_get(table_view(base, state_view()), a),
                    all.take(i + 1),
                    targets@,
                    a,
                    state_entry(),
                ) by {
                lemma_table_view(states@, state_view(), a);
                lemma_table_view(before, state_view(), a);
                lemma_written_step(table_get(table_view(base, state_view()), a), all, targets@, i as int, state_entry(), target, a);
            }
        }
        i = i + 1;
    }
    assert(all.take(all.len() as int) =~= all);
}

/// Writes each saved actor's state revision onto the actor it restores onto.
pub fn write_revisions(revisions: &mut Vec<(usize, u64)>, actors: &Vec<SavedActor>, targets: &Vec<(usize, usize)>)
    requires
        actors_targeted(actors_model(actors@), targets@),
    ensures
        forall|a: usize|
            #[trigger] table_get(final(revisions)@, a) == written(
                table_get(old(revisions)@, a),
                actors_model(actors@),
                targets@,
                a,
                revision_entry(),
            ),
{
    let ghost base = revisions@;
    let ghost all = actors_model(actors@);
    let mut i: usize = 0;
    while i < actors.len()
        invariant
            0 <= i <= actors@.len(),
            all == actors_model(actors@),
            actors_targeted(all, targets@),
            forall|a: usize|
                #[trigger] table_get(revisions@, a) == written(
                    table_get(base, a),
                    all.take(i as int),
                    targets@,
                    a,
                    revision_entry(),
                ),
        decreases actors@.len() - i,
    {
        assert(all[i as int] == actors@[i as int]@);
        assert(table_get(targets@, all[i as int].actor) is Some);
        let target = target_of(targets, actors[i].actor);
        put(revisions, target, actors[i].state_revision);
        proof {
            assert forall|a: usize|
                #[trigger] table_get(revisions@, a) == written(
                    table_get(base, a),
                    all.take(i + 1),
                    targets@,
                    a,
                    revision_entry(),
                ) by {
                lemma_written_step(table_get(base, a), all, targets@, i as int, revision_entry(), target, a);
            }
        }
        i = i + 1;
    }
    assert(all.take(all.len() as int) =~= all);
}

/// Writes each saved actor's timer, if it has one, onto the actor it
/// restores onto.
pub fn write_timers(timers: &mut Vec<(usize, ActorTimer)>, actors: &Vec<SavedActor>, targets: &Vec<(usize, usize)>)
    requires
        actors_targeted(actors_model(actors@), targets@),
    ensures
        forall|a: usize|
            #[trigger] table_get(final(timers)@, a) == written(
                table_get(old(timers)@, a),
                actors_model(actors@),
                targets@,
                a,
                timer_entry(),
            ),
{
    let ghost base = timers@;
    let ghost all = actors_model(actors@);
    let mut i: usize = 0;
    while i < actors.len()
        invariant
            0 <= i <= actors@.len(),
            all == actors_model(actors@),
            actors_targeted(all, targets@),
            forall|a: usize|
                #[trigger] table_get(timers@, a) == written(
                    table_get(base, a),
                    all.take(i as int),
                    targets@,
                    a,
                    timer_entry(),
                ),
        decreases actors@.len() - i,
    {
        assert(all[i as int] == actors@[i as int]@);
        assert(table_get(targets@, all[i as int].actor) is Some);
        let target = target_of(targets, actors[i].actor);
        if let Some(t) = actors[i].timer {
            put(timers, target, ActorTimer { remaining: t.remaining, rate: t.rate, looping: t.looping });
        }
        proof {
            assert forall|a: usize|
                #[trigger] table_get(timers@, a) == written(
                    table_get(base, a),
                    all.take(i + 1),
                    targets@,
                    a,
                    timer_entry(),
                ) by {
                lemma_written_step(table_get(base, a), all, targets@, i as int, timer_entry(), target, a);
            }
        }
        i = i + 1;
    }
    assert(all.take(all.len() as int) =~= all);
}

/// Lists each actor a destroyed saved actor restores onto, once.
pub fn write_destroyed(destroyed: &mut Vec<usize>, actors: &Vec<SavedActor>, targets: &Vec<(usize, usize)>)
    requires
        actors_targeted(actors_model(actors@), targets@),
    ensures
        forall|a: usize|
            #[trigger] final(destroyed)@.contains(a) == (old(destroyed)@.contains(a) || destroyed_written(
                actors_model(actors@),
                targets@,
                a,
            )),
{
    let ghost base = destroyed@;
    let ghost all = actors_model(actors@);
    let mut i: usize = 0;
    while i < actors.len()
        invariant
            0 <= i <= actors@.len(),
            all == actors_model(actors@),
            actors_targeted(all, targets@),
            forall|a: usize|
                #[trigger] destroyed@.contains(a) == (base.contains(a) || destroyed_written(
                    all.take(i as int),
                    targets@,
                    a,
                )),
        decreases actors@.len() - i,
    {
        assert(all[i as int] == actors@[i as int]@);
        assert(table_get(targets@, all[i as int].actor) is Some);
        let target = target_of(targets, actors[i].actor);
        let ghost before = destroyed@;
        if actors[i].destroyed && !lists_actor(destroyed, target) {
            destroyed.push(target);
        }
        proof {
            let now = all.take(i + 1);
            let was = all.take(i as int);
            assert forall|a: usize|
                #[trigger] destroyed@.contains(a) == (base.contains(a) || destroyed_written(now, targets@, a)) by {
                if destroyed_written(was, targets@, a) {
                    let k = choose|k: int|
                        0 <= k < was.len() && #[trigger] was[k].destroyed && table_get(targets@, was[k].actor)
                            == Some(a);
                    assert(now[k] == was[k]);
                }
                if destroyed_written(now, targets@, a) {
                    let k = choose|k: int|
                        0 <= k < now.len() && #[trigger] now[k].destroyed && table_get(targets@, now[k].actor)
                            == Some(a);
                    if k < i {
                        assert(now[k] == was[k]);
                    }
                }
                if all[i as int].destroyed && a == target {
                    assert(now[i as int] == all[i as int]);
                    if before.contains(a) {
                    } else {
                        assert(destroyed@[destroyed@.len() - 1] == a);
                    }
                }
                if destroyed@.contains(a) && !before.contains(a) {
                    assert(destroyed@ == before.push(target));
                    let k = choose|k: int| 0 <= k < destroyed@.len() && destroyed@[k] == a;
                    if k < before.len() {
                        assert(before[k] == a);
                    }
                    assert(now[i as int] == all[i as int]);
                }
                if before.contains(a) {
                    let k = choose|k: int| 0 <= k < before.len() && before[k] == a;
                    assert(destroyed@[k] == a);
                }
            }
        }
        i = i + 1;
    }
    assert(all.take(all.len() as int) =~= all);
}

/// The view of an animation command.
pub open spec fn command_view() -> spec_fn(AnimationCommand) -> AnimationModel {
    |c: AnimationCommand| c@
}

/// The animation a saved command restores.
pub open spec fn animation_of(c: CommandModel) -> AnimationModel {
    AnimationModel {
        sequence: c.sequence,
        relative_rate: c.relative_rate,
        tween_time: c.tween_time,
        looping: c.looping,
        tween_only: c.tween_only,
        root_motion: c.root_motion,
    }
}

/// What the animation table holds for `actor` once the saved commands have
/// been written over `base`, in order: the animation of the last command
/// of an actor restored onto `actor`.
pub open spec fn command_written(
    base: Option<AnimationModel>,
    commands: Seq<CommandModel>,
    targets: Seq<(usize, usize)>,
    actor: usize,
) -> Option<AnimationModel>
    decreases commands.len(),
{
    if commands.len() == 0 {
        base
    } else if table_get(targets, commands.last().actor) == Some(actor) {
        Some(animation_of(commands.last()))
    } else {
        command_written(base, commands.drop_last(), targets, actor)
    }
}

/// Whether every saved command's actor has an actor to restore onto.
pub open spec fn commands_targeted(commands: Seq<CommandModel>, targets: Seq<(usize, usize)>) -> bool {
    forall|i: int| 0 <= i < commands.len() ==> table_get(targets, #[trigger] commands[i].actor) is Some
}

/// Whether every listed actor has an actor to restore onto.
pub open spec fn list_targeted(actors: Seq<usize>, targets: Seq<(usize, usize)>) -> bool {
    forall|i: int| 0 <= i < actors.len() ==> table_get(targets, #[trigger] actors[i]) is Some
}

/// The actors the listed ones restore onto, in order.
pub open spec fn targets_listed(actors: Seq<usize>, targets: Seq<(usize, usize)>) -> Seq<usize> {
    actors.map_values(|x: usize| table_get(targets, x)->0)
}

/// Whether a listed actor restores onto `actor`.
pub open spec fn listed_onto(actors: Seq<usize>, targets: Seq<(usize, usize)>, actor: usize) -> bool {
    exists|i: int| 0 <= i < actors.len() && table_get(targets, #[trigger] actors[i]) == Some(actor)
}

/// Writes each saved command onto the actor its actor restores onto.
pub fn write_commands(
    table: &mut Vec<(usize, AnimationCommand)>,
    commands: &Vec<SavedAnimationCommand>,
    targets: &Vec<(usize, usize)>,
)
    requires
        commands_targeted(commands_model(commands@), targets@),
    ensures
        forall|a: usize|
            #[trigger] table_get(table_view(final(table)@, command_view()), a) == command_written(
                table_get(table_view(old(table)@, command_view()), a),
                commands_model(commands@),
                targets@,
                a,
            ),
{
    let ghost base = table@;
    let ghost all = commands_model(commands@);
    let mut i: usize = 0;
    while i < commands.len()
        invariant
            0 <= i <= commands@.len(),
            all == commands_model(commands@),
            commands_targeted(all, targets@),
            forall|a: usize|
                #[trigger] table_get(table_view(table@, command_view()), a) == command_written(
                    table_get(table_view(base, command_view()), a),
                    all.take(i as int),
                    targets@,
                    a,
                ),
        decreases commands@.len() - i,
    {
        assert(all[i as int] == commands@[i as int]@);
        assert(table_get(targets@, all[i as int].actor) is Some);
        let c = &commands[i];
        let target = target_of(targets, c.actor);
        let command = AnimationCommand {
            sequence: c.sequence.clone(),
            relative_rate: c.relative_rate,
            tween_time: c.tween_time,
            looping: c.looping,
            tween_only: c.tween_only,
            root_motion: c.root_motion,
        };
        let ghost before = table@;
        put(table, target, command);
        proof {
            assert(all.take(i + 1).drop_last() =~= all.take(i as int));
            assert(all.take(i + 1).last() == all[i as int]);
            assert forall|a: usize|
                #[trigger] table_get(table_view(table@, command_view()), a) == command_written(
                    table_get(table_view(base, command_view()), a),
                    all.take(i + 1),
                    targets@,
                    a,
                ) by {
                lemma_table_view(table@, command_view(), a);
                lemma_table_view(before, command_view(), a);
            }
        }
        i = i + 1;
    }
    assert(all.take(all.len() as int) =~= all);
}

/// Lists, once each, the actors the given ones restore onto.
pub fn write_listed(list: &mut Vec<usize>, actors: &Vec<usize>, targets: &Vec<(usize, usize)>)
    requires
        list_targeted(actors@, targets@),
    ensures
        forall|a: usize|
            #[trigger] final(list)@.contains(a) == (old(list)@.contains(a) || listed_onto(actors@, targets@, a)),
{
    let ghost base = list@;
    let mut i: usize = 0;
    while i < actors.len()
        invariant
            0 <= i <= actors@.len(),
            list_targeted(actors@, targets@),
            forall|a: usize|
                #[trigger] list@.contains(a) == (base.contains(a) || listed_onto(actors@.take(i as int), targets@, a)),
        decreases actors@.len() - i,
    {
        assert(table_get(targets@, actors@[i as int]) is Some);
        let target = target_of(targets, actors[i]);
        let ghost before = list@;
        if !lists_actor(list, target) {
            list.push(target);
        }
        proof {
            let now = actors@.take(i + 1);
            let was = actors@.take(i as int);
            assert(now[i as int] == actors@[i as int]);
            assert forall|a: usize| #[trigger] list@.contains(a) == (base.contains(a) || listed_onto(now, targets@, a)) by {
                if listed_onto(was, targets@, a) {
                    let k = choose|k: int| 0 <= k < was.len() && table_get(targets@, #[trigger] was[k]) == Some(a);
                    assert(now[k] == was[k]);
                }
                if listed_onto(now, targets@, a) {
                    let k = choose|k: int| 0 <= k < now.len() && table_get(targets@, #[trigger] now[k]) == Some(a);
                    if k < i {
                        assert(now[k] == was[k]);
                    }
                }
                if a == target && !before.contains(a) {
                    assert(list@[list@.len() - 1] == a);
                }
                if list@.contains(a) && !before.contains(a) {
                    let k = choose|k: int| 0 <= k < list@.len() && list@[k] == a;
                    if k < before.len() {
                        assert(before[k] == a);
                    }
                }
                if before.contains(a) {
                    let k = choose|k: int| 0 <= k < before.len() && before[k] == a;
                    assert(list@[k] == a);
                }
            }
        }
        i = i + 1;
    }
    assert(actors@.take(actors@.len() as int) =~= actors@);
}

/// The actors the listed ones restore onto, in order.
pub fn restored_list(actors: &Vec<usize>, targets: &Vec<(usize, usize)>) -> (r: Vec<usize>)
    requires
        list_targeted(actors@, targets@),
    ensures
        r@ == targets_listed(actors@, targets@),
{
    let mut out: Vec<usize> = Vec::new();
    let mut i: usize = 0;
    while i < actors.len()
        invariant
            0 <= i <= actors@.len(),
            list_targeted(actors@, targets@),
            out@ == targets_listed(actors@.take(i as int), targets@),
        decreases actors@.len() - i,
    {
        assert(table_get(targets@, actors@[i as int]) is Some);
        let target = target_of(targets, actors[i]);
        out.push(target);
        assert(targets_listed(actors@.take(i + 1), targets@) =~= targets_listed(actors@.take(i as int), targets@).push(
            target,
        ));
        i = i + 1;
    }
    assert(actors@.take(actors@.len() as int) =~= actors@);
    out
}

proof fn lemma_remove_scope(d: DisabledEvents, d2: DisabledEvents, i: int)
    requires
        d.wf(),
        0 <= i < d.scopes@.len(),
        d2.scopes@ == d.scopes@.remove(i),
    ensures
        d2.wf(),
        forall|a: usize, st: Seq<char>, e: Seq<char>|
            #[trigger] d2.holds(a, st, e) == (d.holds(a, st, e) && !(a == d.scopes@[i].actor && st
                == d.scopes@[i].state@)),
{
    let s = d.scopes@;
    let s2 = d2.scopes@;
    assert forall|p: int| 0 <= p < s2.len() implies #[trigger] s2[p] == s[if p < i {
        p
    } else {
        p + 1
    }] by {}
    assert forall|a: usize, st: Seq<char>, e: Seq<char>|
        #[trigger] d2.holds(a, st, e) == (d.holds(a, st, e) && !(a == s[i].actor && st == s[i].state@)) by {
        if d2.holds(a, st, e) {
            let (p, k) = choose|p: int, k: int|
                0 <= p < s2.len() && s2[p].actor == a && s2[p].state@ == st && 0 <= k < s2[p].events@.len()
                    && #[trigger] s2[p].events@[k]@ == e;
            let q = if p < i {
                p
            } else {
                p + 1
            };
            assert(s2[p] == s[q]);
            assert(s[q].events@[k]@ == e);
            if a == s[i].actor && st == s[i].state@ {
                if q < i {
                    assert(!(s[q].actor == s[i].actor && s[q].state@ == s[i].state@));
                } else {
                    assert(!(s[i].actor == s[q].actor && s[i].state@ == s[q].state@));
                }
            }
        }
        if d.holds(a, st, e) && !(a == s[i].actor && st == s[i].state@) {
            let (q, k) = choose|q: int, k: int|
                0 <= q < s.len() && s[q].actor == a && s[q].state@ == st && 0 <= k < s[q].events@.len()
                    && #[trigger] s[q].events@[k]@ == e;
            let p = if q < i {
                q
            } else {
                q - 1
            };
            assert(q != i);
            assert(s2[p] == s[q]);
            assert(s2[p].events@[k]@ == e);
        }
    }
    assert forall|p1: int, p2: int|
        0 <= p1 < p2 < s2.len() implies !(s2[p1].actor == s2[p2].actor && s2[p1].state@ == s2[p2].state@) by {
        let q1 = if p1 < i {
            p1
        } else {
            p1 + 1
        };
        let q2 = if p2 < i {
            p2
        } else {
            p2 + 1
        };
        assert(s2[p1] == s[q1] && s2[p2] == s[q2]);
    }
    assert forall|p: int, a: int, b: int|
        0 <= p < s2.len() && 0 <= a < b < s2[p].events@.len() implies #[trigger] s2[p].events@[a]@
            != #[trigger] s2[p].events@[b]@ by {
        let q = if p < i {
            p
        } else {
            p + 1
        };
        assert(s2[p] == s[q]);
    }
}

/// Whether a scope among the first `j` of `scopes` is that of `actor` and
/// `state`.
pub open spec fn scoped_before(scopes: Seq<DisabledScope>, j: int, actor: usize, state: Seq<char>) -> bool {
    exists|k: int| 0 <= k < j && #[trigger] scopes[k].actor == actor && scopes[k].state@ == state
}

/// Keeps the disabled events of run-time actors.
#[verifier::spinoff_prover]
pub fn retain_spawned_scopes(objects: &Vec<(usize, ObjectId)>, disabled: &mut DisabledEvents)
    requires
        old(disabled).wf(),
    ensures
        final(disabled).wf(),
        forall|a: usize, st: Seq<char>, e: Seq<char>|
            #[trigger] final(disabled).holds(a, st, e) == (spawned(objects@, a) && old(disabled).holds(a, st, e)),
{
    let ghost orig = *disabled;
    let ghost all = disabled.scopes@;
    let n = disabled.scopes.len();
    let mut i: usize = 0;
    let mut j: usize = 0;
    while j < n
        invariant
            n == all.len(),
            all == orig.scopes@,
            orig.wf(),
            0 <= i <= j <= n,
            disabled.wf(),
            disabled.scopes@.len() == i + (n - j),
            forall|q: int| 0 <= q < n - j ==> disabled.scopes@[i + q] == #[trigger] all[j + q],
            forall|a: usize, st: Seq<char>, e: Seq<char>|
                #[trigger] disabled.holds(a, st, e) == (orig.holds(a, st, e) && (spawned(objects@, a)
                    || !scoped_before(all, j as int, a, st))),
        decreases n - j,
    {
        assert(disabled.scopes@[i as int] == all[j as int]) by {
            assert(disabled.scopes@[i + 0] == all[j + 0]);
        }
        if spawned_actor(objects, disabled.scopes[i].actor) {
            proof {
                assert forall|a: usize, st: Seq<char>, e: Seq<char>|
                    #[trigger] disabled.holds(a, st, e) == (orig.holds(a, st, e) && (spawned(objects@, a)
                        || !scoped_before(all, j + 1, a, st))) by {
                    if scoped_before(all, j + 1, a, st) && !scoped_before(all, j as int, a, st) {
                        assert(all[j as int].actor == a);
                    }
                    if scoped_before(all, j as int, a, st) {
                        let k = choose|k: int| 0 <= k < j && #[trigger] all[k].actor == a && all[k].state@ == st;
                        assert(all[k].actor == a);
                    }
                }
                assert forall|q: int| 0 <= q < n - (j + 1) implies disabled.scopes@[(i + 1) + q] == #[trigger] all[(
                j + 1) + q] by {
                    assert(disabled.scopes@[i + (q + 1)] == all[j + (q + 1)]);
                }
            }
            i = i + 1;
        } else {
            let ghost before = *disabled;
            let ghost removed = disabled.scopes@[i as int];
            disabled.scopes.remove(i);
            proof {
                lemma_remove_scope(before, *disabled, i as int);
                assert forall|a: usize, st: Seq<char>, e: Seq<char>|
                    #[trigger] disabled.holds(a, st, e) == (orig.holds(a, st, e) && (spawned(objects@, a)
                        || !scoped_before(all, j + 1, a, st))) by {
                    assert(before.holds(a, st, e) == (orig.holds(a, st, e) && (spawned(objects@, a)
                        || !scoped_before(all, j as int, a, st))));
                    if a == removed.actor && st == removed.state@ {
                        assert(all[j as int].actor == a);
                    } else if scoped_before(all, j + 1, a, st) {
                        let k = choose|k: int| 0 <= k < j + 1 && #[trigger] all[k].actor == a && all[k].state@ == st;
                        assert(k != j);
                        assert(all[k].actor == a);
                    }
                    if scoped_before(all, j as int, a, st) {
                        let k = choose|k: int| 0 <= k < j && #[trigger] all[k].actor == a && all[k].state@ == st;
                        assert(all[k].actor == a);
                    }
                }
                assert forall|q: int| 0 <= q < n - (j + 1) implies disabled.scopes@[i + q] == #[trigger] all[(j + 1)
                    + q] by {
                    assert(before.scopes@[i + (q + 1)] == all[j + (q + 1)]);
                }
            }
        }
        j = j + 1;
    }
    proof {
        assert forall|a: usize, st: Seq<char>, e: Seq<char>|
            #[trigger] disabled.holds(a, st, e) == (spawned(objects@, a) && orig.holds(a, st, e)) by {
            if orig.holds(a, st, e) {
                let (q, k) = choose|q: int, k: int|
                    0 <= q < all.len() && all[q].actor == a && all[q].state@ == st && 0 <= k < all[q].events@.len()
                        && #[trigger] all[q].events@[k]@ == e;
                assert(all[q].actor == a);
            }
        }
    }
}

/// The scope key of an optional state name: folded to lower case, empty
/// when absent.
pub open spec fn event_scope(state: Option<Seq<char>>) -> Seq<char> {
    match state {
        Some(s) => lower(s),
        None => Seq::empty(),
    }
}

/// Whether a saved actor restored onto `actor` had disabled `event` in the
/// scope `state`, names folded to lower case.
pub open spec fn disabled_written(
    actors: Seq<ActorModel>,
    targets: Seq<(usize, usize)>,
    actor: usize,
    state: Seq<char>,
    event: Seq<char>,
) -> bool {
    exists|i: int, k: int|
        0 <= i < actors.len() && 0 <= k < actors[i].disabled_events.len() && table_get(targets, actors[i].actor)
            == Some(actor) && event_scope(#[trigger] actors[i].disabled_events[k].0) == state && lower(
            actors[i].disabled_events[k].1,
        ) == event
}

/// Disables the listed events of one restored actor.
fn write_actor_events(disabled: &mut DisabledEvents, actor: usize, events: &Vec<(Option<String>, String)>)
    requires
        old(disabled).wf(),
    ensures
        final(disabled).wf(),
        forall|a: usize, st: Seq<char>, e: Seq<char>|
            #[trigger] final(disabled).holds(a, st, e) == (old(disabled).holds(a, st, e) || (a == actor
                && exists|k: int|
                0 <= k < events@.len() && event_scope(#[trigger] events_model(events@)[k].0) == st && lower(
                    events_model(events@)[k].1,
                ) == e)),
{
    let ghost orig = *disabled;
    let ghost model = events_model(events@);
    let mut k: usize = 0;
    while k < events.len()
        invariant
            0 <= k <= events@.len(),
            model == events_model(events@),
            model.len() == events@.len(),
            disabled.wf(),
            forall|a: usize, st: Seq<char>, e: Seq<char>|
                #[trigger] disabled.holds(a, st, e) == (orig.holds(a, st, e) || (a == actor && exists|q: int|
                    0 <= q < k && event_scope(#[trigger] model[q].0) == st && lower(model[q].1) == e)),
        decreases events@.len() - k,
    {
        let entry = &events[k];
        assert(model[k as int] == (option_string_model(entry.0), entry.1@));
        let state: Option<&str> = match &entry.0 {
            Some(s) => Some(s.as_str()),
            None => None,
        };
        let ghost before = *disabled;
        set_event_disabled(disabled, actor, state, entry.1.as_str(), true);
        proof {
            assert(crate::state::scope_state(state) == event_scope(model[k as int].0));
            assert forall|a: usize, st: Seq<char>, e: Seq<char>|
                #[trigger] disabled.holds(a, st, e) == (orig.holds(a, st, e) || (a == actor && exists|q: int|
                    0 <= q < k + 1 && event_scope(#[trigger] model[q].0) == st && lower(model[q].1) == e)) by {
                if a == actor && st == event_scope(model[k as int].0) && e == lower(model[k as int].1) {
                    assert(event_scope(model[k as int].0) == st);
                } else {
                    assert(disabled.holds(a, st, e) == before.holds(a, st, e));
                    if a == actor && exists|q: int|
                        0 <= q < k + 1 && event_scope(#[trigger] model[q].0) == st && lower(model[q].1) == e {
                        let q = choose|q: int|
                            0 <= q < k + 1 && event_scope(#[trigger] model[q].0) == st && lower(model[q].1) == e;
                        assert(q != k);
                        assert(event_scope(model[q].0) == st);
                    }
                }
            }
        }
        k = k + 1;
    }
}

/// Disables, on each actor restored onto, the events its saved actor had
/// disabled.
#[verifier::spinoff_prover]
pub fn write_disabled(disabled: &mut DisabledEvents, actors: &Vec<SavedActor>, targets: &Vec<(usize, usize)>)
    requires
        old(disabled).wf(),
        actors_targeted(actors_model(actors@), targets@),
    ensures
        final(disabled).wf(),
        forall|a: usize, st: Seq<char>, e: Seq<char>|
            #[trigger] final(disabled).holds(a, st, e) == (old(disabled).holds(a, st, e) || disabled_written(
                actors_model(actors@),
                targets@,
                a,
                st,
                e,
            )),
{
    let ghost orig = *disabled;
    let ghost all = actors_model(actors@);
    let mut i: usize = 0;
    while i < actors.len()
        invariant
            0 <= i <= actors@.len(),
            all == actors_model(actors@),
            actors_targeted(all, targets@),
            disabled.wf(),
            forall|a: usize, st: Seq<char>, e: Seq<char>|
                #[trigger] disabled.holds(a, st, e) == (orig.holds(a, st, e) || disabled_written(
                    all.take(i as int),
                    targets@,
                    a,
                    st,
                    e,
                )),
        decreases actors@.len() - i,
    {
        assert(all[i as int] == actors@[i as int]@);
        assert(table_get(targets@, all[i as int].actor) is Some);
        let target = target_of(targets, actors[i].actor);
        let ghost before = *disabled;
        write_actor_events(disabled, target, &actors[i].disabled_events);
        proof {
            let now = all.take(i + 1);
            let was = all.take(i as int);
            assert(now[i as int] == all[i as int]);
            assert(all[i as int].disabled_events == events_model(actors@[i as int].disabled_events@));
            assert forall|a: usize, st: Seq<char>, e: Seq<char>|
                #[trigger] disabled.holds(a, st, e) == (orig.holds(a, st, e) || disabled_written(now, targets@, a, st, e)) by {
                if disabled_written(was, targets@, a, st, e) {
                    let (p, k) = choose|p: int, k: int|
                        0 <= p < was.len() && 0 <= k < was[p].disabled_events.len() && table_get(targets@, was[p].actor)
                            == Some(a) && event_scope(#[trigger] was[p].disabled_events[k].0) == st && lower(
                            was[p].disabled_events[k].1,
                        ) == e;
                    assert(now[p] == was[p]);
                    assert(event_scope(now[p].disabled_events[k].0) == st);
                }
                if disabled_written(now, targets@, a, st, e) {
                    let (p, k) = choose|p: int, k: int|
                        0 <= p < now.len() && 0 <= k < now[p].disabled_events.len() && table_get(targets@, now[p].actor)
                            == Some(a) && event_scope(#[trigger] now[p].disabled_events[k].0) == st && lower(
                            now[p].disabled_events[k].1,
                        ) == e;
                    if p < i {
                        assert(now[p] == was[p]);
                        assert(event_scope(was[p].disabled_events[k].0) == st);
                    } else {
                        assert(event_scope(events_model(actors@[i as int].disabled_events@)[k].0) == st);
                    }
                }
                if a == target && exists|k: int|
                    0 <= k < actors@[i as int].disabled_events@.len() && event_scope(
                        #[trigger] events_model(actors@[i as int].disabled_events@)[k].0,
                    ) == st && lower(events_model(actors@[i as int].disabled_events@)[k].1) == e {
                    let k = choose|k: int|
                        0 <= k < actors@[i as int].disabled_events@.len() && event_scope(
                            #[trigger] events_model(actors@[i as int].disabled_events@)[k].0,
                        ) == st && lower(events_model(actors@[i as int].disabled_events@)[k].1) == e;
                    assert(event_scope(now[i as int].disabled_events[k].0) == st);
                }
            }
        }
        i = i + 1;
    }
    assert(all.take(all.len() as int) =~= all);
}

/// The channels driven by run-time actors, in their order.
pub open spec fn spawned_channels(objects: Seq<(usize, ObjectId)>, channels: Seq<AnimationChannel>) -> Seq<
    AnimationChannel,
>
    decreases channels.len(),
{
    if channels.len() == 0 {
        Seq::empty()
    } else {
        let rest = spawned_channels(objects, channels.drop_last());
        if spawned(objects, channels.last().actor) {
            rest.push(channels.last())
        } else {
            rest
        }
    }
}

/// What a restore keeps of the channel table: each actor's channels driven
/// by run-time actors, for run-time actors and for actors left with such a
/// channel.
pub open spec fn retained_channels(objects: Seq<(usize, ObjectId)>, table: Seq<(usize, Vec<AnimationChannel>)>) -> Seq<
    (usize, Seq<AnimationChannel>),
>
    decreases table.len(),
{
    if table.len() == 0 {
        Seq::empty()
    } else {
        let rest = retained_channels(objects, table.drop_last());
        let kept = spawned_channels(objects, table.last().1@);
        if spawned(objects, table.last().0) || kept.len() > 0 {
            rest.push((table.last().0, kept))
        } else {
            rest
        }
    }
}

/// The view of a channel list.
pub open spec fn channels_view() -> spec_fn(Vec<AnimationChannel>) -> Seq<AnimationChannel> {
    |v: Vec<AnimationChannel>| v@
}

/// Keeps, per actor, the channels driven by run-time actors, and drops the
/// entries of authored actors left without one.
pub fn retain_spawned_channels(objects: &Vec<(usize, ObjectId)>, table: &Vec<(usize, Vec<AnimationChannel>)>) -> (r: Vec<
    (usize, Vec<AnimationChannel>),
>)
    ensures
        table_view(r@, channels_view()) == retained_channels(objects@, table@),
{
    let mut out: Vec<(usize, Vec<AnimationChannel>)> = Vec::new();
    let mut i: usize = 0;
    while i < table.len()
        invariant
            0 <= i <= table@.len(),
            table_view(out@, channels_view()) == retained_channels(objects@, table@.take(i as int)),
        decreases table@.len() - i,
    {
        let channels = &table[i].1;
        let mut kept: Vec<AnimationChannel> = Vec::new();
        let mut k: usize = 0;
        while k < channels.len()
            invariant
                0 <= k <= channels@.len(),
                kept@ == spawned_channels(objects@, channels@.take(k as int)),
            decreases channels@.len() - k,
        {
            let c = channels[k];
            assert(channels@.take(k + 1).drop_last() =~= channels@.take(k as int));
            assert(channels@.take(k + 1).last() == c);
            if spawned_actor(objects, c.actor) {
                kept.push(c);
            }
            k = k + 1;
        }
        assert(channels@.take(channels@.len() as int) =~= channels@);
        assert(table@.take(i + 1).drop_last() =~= table@.take(i as int));
        assert(table@.take(i + 1).last() == table@[i as int]);
        let ghost before = out@;
        if spawned_actor(objects, table[i].0) || kept.len() > 0 {
            out.push((table[i].0, kept));
            assert(table_view(out@, channels_view()) =~= table_view(before, channels_view()).push(
                (table@[i as int].0, spawned_channels(objects@, table@[i as int].1@)),
            ));
        }
        i = i + 1;
    }
    assert(table@.take(table@.len() as int) =~= table@);
    out
}

/// The channel a saved channel restores.
pub open spec fn channel_of(c: SavedAnimationChannel, targets: Seq<(usize, usize)>) -> AnimationChannel {
    AnimationChannel { root_bone: c.root_bone, actor: table_get(targets, c.target)->0 }
}

/// What the channel table holds for `actor` once the saved channels have
/// been added over `base`, in order: the channels of the saved ones whose
/// actor restores onto `actor`, after what `base` held.
pub open spec fn channels_written(
    base: Option<Seq<AnimationChannel>>,
    saved: Seq<SavedAnimationChannel>,
    targets: Seq<(usize, usize)>,
    actor: usize,
) -> Option<Seq<AnimationChannel>>
    decreases saved.len(),
{
    if saved.len() == 0 {
        base
    } else {
        let prev = channels_written(base, saved.drop_last(), targets, actor);
        if table_get(targets, saved.last().actor) == Some(actor) {
            Some(
                match prev {
                    Some(s) => s,
                    None => Seq::empty(),
                }.push(channel_of(saved.last(), targets)),
            )
        } else {
            prev
        }
    }
}

/// Whether every saved channel's actors have actors to restore onto.
pub open spec fn channels_targeted(saved: Seq<SavedAnimationChannel>, targets: Seq<(usize, usize)>) -> bool {
    forall|i: int|
        0 <= i < saved.len() ==> table_get(targets, #[trigger] saved[i].actor) is Some && table_get(
            targets,
            saved[i].target,
        ) is Some
}

/// Adds each saved channel to the actor its actor restores onto.
pub fn write_channels(
    table: &mut Vec<(usize, Vec<AnimationChannel>)>,
    saved: &Vec<SavedAnimationChannel>,
    targets: &Vec<(usize, usize)>,
)
    requires
        channels_targeted(saved@, targets@),
    ensures
        forall|a: usize|
            #[trigger] table_get(table_view(final(table)@, channels_view()), a) == channels_written(
                table_get(table_view(old(table)@, channels_view()), a),
                saved@,
                targets@,
                a,
            ),
{
    let ghost base = table@;
    let mut i: usize = 0;
    while i < saved.len()
        invariant
            0 <= i <= saved@.len(),
            channels_targeted(saved@, targets@),
            forall|a: usize|
                #[trigger] table_get(table_view(table@, channels_view()), a) == channels_written(
                    table_get(table_view(base, channels_view()), a),
                    saved@.take(i as int),
                    targets@,
                    a,
                ),
        decreases saved@.len() - i,
    {
        let c = saved[i];
        assert(table_get(targets@, saved@[i as int].actor) is Some);
        let key = target_of(targets, c.actor);
        let channel = AnimationChannel { root_bone: c.root_bone, actor: target_of(targets, c.target) };
        let ghost before = table@;
        match find_entry(table, key) {
            Some(at) => {
                let (k, mut channels) = table.remove(at);
                let ghost old_channels = channels@;
                channels.push(channel);
                table.insert(at, (k, channels));
                proof {
                    assert(table@ =~= before.update(at as int, (key, channels)));
                    lemma_table_get_update(before, at as int, (key, channels));
                    assert(table_get(before, key) == Some(before[at as int].1));
                    assert(old_channels == before[at as int].1@);
                }
            },
            None => {
                let mut channels: Vec<AnimationChannel> = Vec::new();
                channels.push(channel);
                table.push((key, channels));
                proof {
                    lemma_table_get_push(before, (key, channels));
                }
            },
        }
        proof {
            assert(saved@.take(i + 1).drop_last() =~= saved@.take(i as int));
            assert(saved@.take(i + 1).last() == c);
            assert forall|a: usize|
                #[trigger] table_get(table_view(table@, channels_view()), a) == channels_written(
                    table_get(table_view(base, channels_view()), a),
                    saved@.take(i + 1),
                    targets@,
                    a,
                ) by {
                lemma_table_view(table@, channels_view(), a);
                lemma_table_view(before, channels_view(), a);
            }
        }
        i = i + 1;
    }
    assert(saved@.take(saved@.len() as int) =~= saved@);
}

/// Whether every actor a snapshot refers to has an actor to restore onto:
/// its actors, the actors their suspended frames wait on (and a sleep there
/// is finite), and the actors of its animations, channels and lists.
pub open spec fn refs_resolve(m: RuntimeModel, targets: Seq<(usize, usize)>) -> bool {
    &&& actors_targeted(m.actors, targets)
    &&& forall|i: int|
        0 <= i < m.actors.len() ==> (#[trigger] m.actors[i].frame matches Some(f) ==> restored_latent(
            f.latent,
            targets,
        ) is Some)
    &&& commands_targeted(m.animation_commands, targets)
    &&& channels_targeted(m.animation_channels, targets)
    &&& list_targeted(m.animating, targets)
    &&& list_targeted(m.player_probe_touching, targets)
}

fn actors_resolve(actors: &Vec<SavedActor>, targets: &Vec<(usize, usize)>) -> (r: bool)
    ensures
        r == (actors_targeted(actors_model(actors@), targets@) && forall|i: int|
            0 <= i < actors_model(actors@).len() ==> (#[trigger] actors_model(actors@)[i].frame matches Some(f)
                ==> restored_latent(f.latent, targets@) is Some)),
{
    let ghost all = actors_model(actors@);
    let mut i: usize = 0;
    while i < actors.len()
        invariant
            0 <= i <= actors@.len(),
            all == actors_model(actors@),
            forall|j: int| 0 <= j < i ==> table_get(targets@, #[trigger] all[j].actor) is Some,
            forall|j: int|
                0 <= j < i ==> (#[trigger] all[j].frame matches Some(f) ==> restored_latent(f.latent, targets@) is Some),
        decreases actors@.len() - i,
    {
        assert(all[i as int] == actors@[i as int]@);
        if find_entry(targets, actors[i].actor).is_none() {
            assert(table_get(targets@, all[i as int].actor) is None);
            return false;
        }
        if let Some(frame) = &actors[i].frame {
            if restore_latent(frame.latent, targets).is_err() {
                assert(all[i as int].frame == Some(frame@));
                return false;
            }
        }
        i = i + 1;
    }
    true
}

fn commands_resolve(commands: &Vec<SavedAnimationCommand>, targets: &Vec<(usize, usize)>) -> (r: bool)
    ensures
        r == commands_targeted(commands_model(commands@), targets@),
{
    let ghost all = commands_model(commands@);
    let mut i: usize = 0;
    while i < commands.len()
        invariant
            0 <= i <= commands@.len(),
            all == commands_model(commands@),
            forall|j: int| 0 <= j < i ==> table_get(targets@, #[trigger] all[j].actor) is Some,
        decreases commands@.len() - i,
    {
        assert(all[i as int] == commands@[i as int]@);
        if find_entry(targets, commands[i].actor).is_none() {
            assert(table_get(targets@, all[i as int].actor) is None);
            return false;
        }
        i = i + 1;
    }
    true
}

fn channels_resolve(saved: &Vec<SavedAnimationChannel>, targets: &Vec<(usize, usize)>) -> (r: bool)
    ensures
        r == channels_targeted(saved@, targets@),
{
    let mut i: usize = 0;
    while i < saved.len()
        invariant
            0 <= i <= saved@.len(),
            forall|j: int|
                0 <= j < i ==> table_get(targets@, #[trigger] saved@[j].actor) is Some && table_get(
                    targets@,
                    saved@[j].target,
                ) is Some,
        decreases saved@.len() - i,
    {
        if find_entry(targets, saved[i].actor).is_none() || find_entry(targets, saved[i].target).is_none() {
            return false;
        }
        i = i + 1;
    }
    true
}

fn list_resolves(actors: &Vec<usize>, targets: &Vec<(usize, usize)>) -> (r: bool)
    ensures
        r == list_targeted(actors@, targets@),
{
    let mut i: usize = 0;
    while i < actors.len()
        invariant
            0 <= i <= actors@.len(),
            forall|j: int| 0 <= j < i ==> table_get(targets@, #[trigger] actors@[j]) is Some,
        decreases actors@.len() - i,
    {
        if find_entry(targets, actors[i]).is_none() {
            return false;
        }
        i = i + 1;
    }
    true
}

/// Whether every actor a snapshot refers to has an actor to restore onto.
pub fn snapshot_resolves(snapshot: &SavedRuntime, targets: &Vec<(usize, usize)>) -> (r: bool)
    ensures
        r == refs_resolve(snapshot@, targets@),
{
    actors_resolve(&snapshot.actors, targets) && commands_resolve(&snapshot.animation_commands, targets)
        && channels_resolve(&snapshot.animation_channels, targets) && list_resolves(&snapshot.animating, targets)
        && list_resolves(&snapshot.player_probe_touching, targets)
}

/// The largest actor index registered in `objects`.
pub open spec fn max_actor(objects: Seq<(usize, ObjectId)>) -> int
    decreases objects.len(),
{
    if objects.len() == 0 {
        -1
    } else {
        let rest = max_actor(objects.drop_last());
        if objects.last().0 > rest {
            objects.last().0 as int
        } else {
            rest
        }
    }
}

/// The index after the largest registered actor index; nothing when no
/// actor is registered or the largest index is `usize::MAX`.
pub open spec fn next_actor_of(objects: Seq<(usize, ObjectId)>) -> Option<usize> {
    if objects.len() == 0 || max_actor(objects) >= usize::MAX {
        None
    } else {
        Some((max_actor(objects) + 1) as usize)
    }
}

/// The index after the largest registered actor index.
pub fn next_actor_index(objects: &Vec<(usize, ObjectId)>) -> (r: Result<usize, DispatchError>)
    ensures
        match r {
            Ok(n) => next_actor_of(objects@) == Some(n),
            Err(e) => next_actor_of(objects@) is None && e is ObjectLimit,
        },
{
    if objects.len() == 0 {
        return Err(DispatchError::ObjectLimit);
    }
    let mut largest: usize = objects[0].0;
    let mut i: usize = 1;
    assert(objects@.take(1).drop_last() =~= Seq::<(usize, ObjectId)>::empty());
    assert(objects@.take(1).last() == objects@[0]);
    assert(max_actor(Seq::<(usize, ObjectId)>::empty()) == -1);
    while i < objects.len()
        invariant
            1 <= i <= objects@.len(),
            largest == max_actor(objects@.take(i as int)),
        decreases objects@.len() - i,
    {
        assert(objects@.take(i + 1).drop_last() =~= objects@.take(i as int));
        if objects[i].0 > largest {
            largest = objects[i].0;
        }
        i = i + 1;
    }
    assert(objects@.take(objects@.len() as int) =~= objects@);
    if largest == usize::MAX {
        Err(DispatchError::ObjectLimit)
    } else {
        Ok(largest + 1)
    }
}

/// The runtime after the tables keyed by actor took a snapshot `m` whose
/// actors restore onto `targets`: entries and listings of run-time actors
/// stay, and each saved entry is written onto the actor it restores onto;
/// the random state and the alternate fire button come from the snapshot,
/// the space key is released, non-actor objects and playing sounds are
/// dropped, and what names no actor is unchanged.
pub open spec fn tables_restored(
    old: ScriptRuntime,
    m: RuntimeModel,
    targets: Seq<(usize, usize)>,
    new: ScriptRuntime,
) -> bool {
    let o = old.actor_objects@;
    &&& new.actor_objects@ == o
    &&& new.actor_classes@ == old.actor_classes@
    &&& new.instances@ == old.instances@
    &&& new.handle_objects@ == old.handle_objects@
    &&& new.active_state_actor == old.active_state_actor
    &&& new.pending_latent == old.pending_latent
    &&& new.object_instances@.len() == 0
    &&& new.state_frames@ == spawned_entries(o, old.state_frames@)
    &&& forall|a: usize|
        #[trigger] table_get(table_view(new.actor_states@, state_view()), a) == written(
            table_get(table_view(spawned_entries(o, old.actor_states@), state_view()), a),
            m.actors,
            targets,
            a,
            state_entry(),
        )
    &&& forall|a: usize|
        #[trigger] table_get(new.state_revisions@, a) == written(
            table_get(spawned_entries(o, old.state_revisions@), a),
            m.actors,
            targets,
            a,
            revision_entry(),
        )
    &&& forall|a: usize|
        #[trigger] table_get(new.timers@, a) == written(
            table_get(spawned_entries(o, old.timers@), a),
            m.actors,
            targets,
            a,
            timer_entry(),
        )
    &&& forall|a: usize|
        #[trigger] new.destroyed@.contains(a) == (spawned_list(o, old.destroyed@).contains(a) || destroyed_written(
            m.actors,
            targets,
            a,
        ))
    &&& new.disabled_events.wf()
    &&& forall|a: usize, st: Seq<char>, e: Seq<char>|
        #[trigger] new.disabled_events.holds(a, st, e) == ((spawned(o, a) && old.disabled_events.holds(a, st, e))
            || disabled_written(m.actors, targets, a, st, e))
    &&& new.random_state == m.random_state
    &&& new.player_alt_fire_pressed == m.player_alt_fire_pressed
    &&& !new.player_space_pressed
    &&& forall|a: usize|
        #[trigger] table_get(table_view(new.animation_commands@, command_view()), a) == command_written(
            table_get(table_view(spawned_entries(o, old.animation_commands@), command_view()), a),
            m.animation_commands,
            targets,
            a,
        )
    &&& forall|a: usize|
        #[trigger] table_get(table_view(new.animation_channels@, channels_view()), a) == channels_written(
            table_get(retained_channels(o, old.animation_channels@), a),
            m.animation_channels,
            targets,
            a,
        )
    &&& forall|a: usize|
        #[trigger] new.animating@.contains(a) == (spawned_list(o, old.animating@).contains(a) || listed_onto(
            m.animating,
            targets,
            a,
        ))
    &&& new.player_probe_touching@ == targets_listed(m.player_probe_touching, targets)
    &&& new.sound_channels@.len() == 0
}

/// The runtime after a snapshot `m` whose actors restore onto `targets`
/// was written into it: its tables restored, and the next actor index
/// following the largest registered one.
pub open spec fn restored(old: ScriptRuntime, m: RuntimeModel, targets: Seq<(usize, usize)>, new: ScriptRuntime) -> bool {
    &&& tables_restored(old, m, targets, new)
    &&& next_actor_of(old.actor_objects@) == Some(new.next_actor)
}

impl ScriptRuntime {
    /// Writes a restore plan into the tables keyed by actor: run-time
    /// actors keep their entries, each saved entry goes to the actor it
    /// restores onto. Fails, changing nothing, when the snapshot refers to
    /// an actor without one; fails with the tables written but the next
    /// actor index unchanged when no next actor index follows the
    /// registered ones.
    #[verifier::spinoff_prover]
    pub fn apply_restore(&mut self, plan: &RestorePlan) -> (r: Result<(), DispatchError>)
        requires
            old(self).disabled_events.wf(),
        ensures
            match r {
                Ok(()) => refs_resolve(plan.snapshot@, plan.targets@) && restored(
                    *old(self),
                    plan.snapshot@,
                    plan.targets@,
                    *final(self),
                ),
                Err(e) => if refs_resolve(plan.snapshot@, plan.targets@) {
                    &&& next_actor_of(old(self).actor_objects@) is None
                    &&& e is ObjectLimit
                    &&& tables_restored(*old(self), plan.snapshot@, plan.targets@, *final(self))
                    &&& final(self).next_actor == old(self).next_actor
                } else {
                    *final(self) == *old(self) && e is SaveState
                },
            },
    {
        let snapshot = &plan.snapshot;
        let targets = &plan.targets;
        if !snapshot_resolves(snapshot, targets) {
            return Err(save_error("snapshot refers to an absent actor"));
        }
        let ghost m = snapshot@;
        let ghost before = *self;
        self.object_instances = Vec::new();
        retain_spawned(&self.actor_objects, &mut self.actor_states);
        retain_spawned(&self.actor_objects, &mut self.state_frames);
        retain_spawned(&self.actor_objects, &mut self.state_revisions);
        retain_spawned_scopes(&self.actor_objects, &mut self.disabled_events);
        retain_spawned_list(&self.actor_objects, &mut self.destroyed);
        retain_spawned(&self.actor_objects, &mut self.timers);
        write_states(&mut self.actor_states, &snapshot.actors, targets);
        write_revisions(&mut self.state_revisions, &snapshot.actors, targets);
        write_destroyed(&mut self.destroyed, &snapshot.actors, targets);
        write_timers(&mut self.timers, &snapshot.actors, targets);
        write_disabled(&mut self.disabled_events, &snapshot.actors, targets);
        self.random_state = snapshot.random_state;
        self.player_alt_fire_pressed = snapshot.player_alt_fire_pressed;
        self.player_space_pressed = false;
        retain_spawned(&self.actor_objects, &mut self.animation_commands);
        write_commands(&mut self.animation_commands, &snapshot.animation_commands, targets);
        let channels = retain_spawned_channels(&self.actor_objects, &self.animation_channels);
        self.animation_channels = channels;
        proof {
            assert forall|a: usize|
                #[trigger] table_get(table_view(self.animation_channels@, channels_view()), a) == table_get(
                    retained_channels(before.actor_objects@, before.animation_channels@),
                    a,
                ) by {}
        }
        write_channels(&mut self.animation_channels, &snapshot.animation_channels, targets);
        retain_spawned_list(&self.actor_objects, &mut self.animating);
        write_listed(&mut self.animating, &snapshot.animating, targets);
        self.player_probe_touching = restored_list(&snapshot.player_probe_touching, targets);
        self.sound_channels = Vec::new();
        let next_actor = next_actor_index(&self.actor_objects)?;
        self.next_actor = next_actor;
        Ok(())
    }

    /// Restores a save for `map` over the registered map: reads and matches
    /// it as `plan_restore` does, then writes it into the tables keyed by
    /// actor as `apply_restore` does, and hands back the plan for the parts
    /// that name package objects, which `finish_restore` writes once the
    /// host resolved them. Fails, changing nothing, when the save
    /// cannot be read or matched or refers to an absent actor; when no next
    /// actor index is left, fails after writing the tables.
    pub fn restore_game(&mut self, map: &str, bytes: &[u8]) -> (r: Result<RestorePlan, DispatchError>)
        requires
            old(self).disabled_events.wf(),
        ensures
            exists|st: Stems| #[trigger] restore_outcome(st, *old(self), map@, bytes@, r, *final(self)),
            r matches Ok(plan) ==> plan_read_from(*old(self), map@, bytes@, plan.snapshot@, plan.targets@) && restored(
                *old(self),
                plan.snapshot@,
                plan.targets@,
                *final(self),
            ),
            r matches Err(e) ==> *final(self) == *old(self) || (e is ObjectLimit && next_actor_of(
                old(self).actor_objects@,
            ) is None && final(self).next_actor == old(self).next_actor),
            !(recorded_map(bytes@) matches Some(m) && same_ignoring_ascii_case(m, map@)) ==> (r matches Err(e)
                && e is SaveState && *final(self) == *old(self)),
    {
        let stems = self.restore_stems();
        let plan = match self.plan_restore_with(map, bytes, &stems) {
            Ok(plan) => plan,
            Err(e) => {
                assert(restore_outcome(stems@, *old(self), map@, bytes@, Err(e), *self));
                return Err(e);
            },
        };
        match self.apply_restore(&plan) {
            Ok(()) => {},
            Err(e) => {
                assert(restore_outcome(stems@, *old(self), map@, bytes@, Err(e), *self));
                return Err(e);
            },
        }
        assert(restore_outcome(stems@, *old(self), map@, bytes@, Ok::<RestorePlan, DispatchError>(plan), *self));
        Ok(plan)
    }
}

/// What a restore of `bytes` for `map` over `old` answers and leaves, the
/// stems of platform-dependent package paths being `st`: on success the
/// plan `restore_plan_of` gives, written into the tables; on failure the
/// runtime unchanged, except that when no next actor index is left the
/// tables are written.
pub open spec fn restore_outcome(
    st: Stems,
    old: ScriptRuntime,
    map: Seq<char>,
    bytes: Seq<u8>,
    r: Result<RestorePlan, DispatchError>,
    new: ScriptRuntime,
) -> bool {
    match r {
        Ok(plan) => restore_plan_of(st, old, map, bytes) == Some((plan.snapshot@, plan.targets@)) && refs_resolve(
            plan.snapshot@,
            plan.targets@,
        ) && restored(old, plan.snapshot@, plan.targets@, new),
        Err(e) => match restore_plan_of(st, old, map, bytes) {
            Some((m, t)) => if refs_resolve(m, t) {
                &&& next_actor_of(old.actor_objects@) is None
                &&& e is ObjectLimit
                &&& tables_restored(old, m, t, new)
                &&& new.next_actor == old.next_actor
            } else {
                new == old && e is SaveState
            },
            None => new == old && unmatched_error(old, e),
        },
    }
}

} // verus!
