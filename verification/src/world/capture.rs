//! Taking a snapshot of the runtime: which actors, objects and animation
//! state a save holds, and in what order.
use vstd::prelude::*;
use crate::error::{DispatchError, save_error};
use crate::order::{sorted, sorted_seq, views};
use crate::save::keys::DisabledEntry;
use crate::save::layout::{runtime_le, runtime_writable};
use crate::save::model::{
    ActorModel, CommandModel, FrameModel, InstanceModel, ObjectModel, RuntimeModel, SavedActor,
    SavedAnimationChannel, SavedAnimationCommand, SavedFrame, SavedObject, SavedObjectInstance,
    SavedRuntime, SavedTimer, SavedValue, ValueModel, actors_model, commands_model, events_model,
    instances_model, value_model,
};
use crate::save::snapshot::write_runtime;
use crate::save::wire::{MAX_SAVE_BYTES, SaveWriter, finite_bits, string_le, u16_le};
use crate::save::format::{VERSION, magic};
use crate::world::roundtrip::{authored_timers_finite, lemma_saved_lists_authored, lemma_saved_timers_finite, lists_authored};
use crate::text::contains_either;
use vstd::utf8::encode_utf8;
use crate::state::{DisabledEvents, DisabledScope};
use crate::value::{ObjectId, StoredValue, Value};
use crate::world::convert::{
    is_runtime_object, runtime_package, latent_of, saved_frame_value, saved_latent, saved_object_with, saved_object_of, stem_table, stored_paths, StemTable, Stems, saved_stored_of,
    saved_stored_value, saved_value_of, stored_ref, stored_value_has_runtime_reference, then_rest,
};
use crate::world::runtime::{AnimationChannel, AnimationCommand, InstanceState, ScriptRuntime, StateFrame};

verus! {

/// The entry a table holds for `key`: its first one.
pub open spec fn table_get<K, X>(table: Seq<(K, X)>, key: K) -> Option<X>
    decreases table.len(),
{
    if table.len() == 0 {
        None
    } else if table[0].0 == key {
        Some(table[0].1)
    } else {
        table_get(table.subrange(1, table.len() as int), key)
    }
}

/// The position of the entry a table holds for `actor`.
pub fn find_entry<X>(table: &Vec<(usize, X)>, actor: usize) -> (r: Option<usize>)
    ensures
        match r {
            Some(i) => i < table@.len() && table@[i as int].0 == actor && table_get(table@, actor)
                == Some(table@[i as int].1) && forall|j: int| 0 <= j < i ==> table@[j].0 != actor,
            None => table_get(table@, actor) is None && forall|j: int|
                0 <= j < table@.len() ==> table@[j].0 != actor,
        },
{
    let mut i: usize = 0;
    assert(table@.subrange(0, table@.len() as int) =~= table@);
    while i < table.len()
        invariant
            0 <= i <= table@.len(),
            forall|j: int| 0 <= j < i ==> table@[j].0 != actor,
            table_get(table@, actor) == table_get(table@.subrange(i as int, table@.len() as int), actor),
        decreases table@.len() - i,
    {
        let ghost rest = table@.subrange(i as int, table@.len() as int);
        assert(rest[0] == table@[i as int]);
        assert(rest.subrange(1, rest.len() as int) =~= table@.subrange(i + 1, table@.len() as int));
        if table[i].0 == actor {
            return Some(i);
        }
        i = i + 1;
    }
    None
}

/// The fields of an instance a snapshot keeps, in the order they are held:
/// those that refer to a run-time actor are left out; nothing when a field
/// or value cannot be converted.
pub open spec fn instance_pairs_of(st: Stems, handles: Seq<ObjectId>, values: Seq<(ObjectId, StoredValue)>) -> Option<
    Seq<(ObjectModel, ValueModel)>,
>
    decreases values.len(),
{
    if values.len() == 0 {
        Some(Seq::empty())
    } else {
        let rest = instance_pairs_of(st, handles, values.subrange(1, values.len() as int));
        match stored_ref(handles, values[0].1) {
            None => None,
            Some(true) => rest,
            Some(false) => match (saved_object_of(st, values[0].0@), saved_stored_of(st, handles, values[0].1)) {
                (Some(o), Some(v)) => then_rest(seq![(o, v)], rest),
                _ => None,
            },
        }
    }
}

/// The fields of an instance as a snapshot holds them: in object order.
pub open spec fn instance_of(st: Stems, handles: Seq<ObjectId>, values: Seq<(ObjectId, StoredValue)>) -> Option<
    Seq<(ObjectModel, ValueModel)>,
> {
    match instance_pairs_of(st, handles, values) {
        Some(pairs) => Some(sorted_seq::<(SavedObject, SavedValue)>(pairs)),
        None => None,
    }
}

/// Converts the fields of an instance.
pub fn saved_instance(runtime: &ScriptRuntime, values: &InstanceState, stems: &StemTable) -> (r: Result<
    Vec<(SavedObject, SavedValue)>,
    DispatchError,
>)
    ensures
        match r {
            Ok(pairs) => instance_of(stems@, 
                runtime.handle_objects@,
                values@,
            ) == Some(views(pairs@)),
            Err(e) => instance_of(stems@, runtime.handle_objects@, values@) is None,
        },
{
    let ghost st = stems@;
    let ghost handles = runtime.handle_objects@;
    let mut out: Vec<(SavedObject, SavedValue)> = Vec::new();
    let mut i: usize = 0;
    assert(values@.subrange(0, values@.len() as int) =~= values@);
    assert(views(out@) =~= Seq::<(ObjectModel, ValueModel)>::empty());
    while i < values.len()
        invariant
            st == stems@,
            0 <= i <= values@.len(),
            handles == runtime.handle_objects@,
            instance_pairs_of(st, handles, values@) == then_rest(
                views(out@),
                instance_pairs_of(st, handles, values@.subrange(i as int, values@.len() as int)),
            ),
        decreases values@.len() - i,
    {
        let ghost rest = values@.subrange(i as int, values@.len() as int);
        assert(rest.subrange(1, rest.len() as int) =~= values@.subrange(i + 1, values@.len() as int));
        assert(rest[0] == values@[i as int]);
        let skip = stored_value_has_runtime_reference(runtime, &values[i].1)?;
        if skip {
            i = i + 1;
        } else {
            let field = saved_object_with(&values[i].0, stems)?;
            let value = saved_stored_value(runtime, &values[i].1, stems)?;
            proof {
                let item = (field, value);
                assert(item@ == (field@, value_model(value)));
                assert(views(out@.push(item)) =~= views(out@).push(item@));
                if let Some(tail) = instance_pairs_of(st, 
                    handles,
                    values@.subrange(i + 1, values@.len() as int),
                ) {
                    assert(views(out@) + (seq![item@] + tail) =~= views(out@).push(item@) + tail);
                }
            }
            out.push((field, value));
            i = i + 1;
        }
    }
    assert(views(out@) + Seq::<(ObjectModel, ValueModel)>::empty() =~= views(out@));
    Ok(sorted(out))
}

/// The locals of a frame as a snapshot holds them, in the order they are
/// held; nothing when one cannot be converted.
pub open spec fn locals_of(st: Stems, handles: Seq<ObjectId>, locals: Seq<(i32, Value)>) -> Option<
    Seq<(i32, ValueModel)>,
>
    decreases locals.len(),
{
    if locals.len() == 0 {
        Some(Seq::empty())
    } else {
        match saved_value_of(st, handles, locals[0].1) {
            Some(v) => then_rest(
                seq![(locals[0].0, v)],
                locals_of(st, handles, locals.subrange(1, locals.len() as int)),
            ),
            None => None,
        }
    }
}

/// The snapshot form of a suspended frame: locals in slot order; nothing
/// while the frame runs an iterator or when a part cannot be converted.
pub open spec fn frame_of(st: Stems, handles: Seq<ObjectId>, frame: StateFrame) -> Option<FrameModel> {
    match (frame.instruction_pointer, locals_of(st, handles, frame.locals@), saved_object_of(st, frame.state@)) {
        (Some(ip), Some(locals), Some(state)) => if ip <= u32::MAX {
            Some(
                FrameModel {
                    state,
                    instruction_pointer: ip as u32,
                    locals: sorted_seq::<(i32, SavedValue)>(locals),
                    latent: latent_of(frame.latent),
                },
            )
        } else {
            None
        },
        _ => None,
    }
}

/// Converts a suspended frame.
pub fn saved_frame(runtime: &ScriptRuntime, frame: &StateFrame, stems: &StemTable) -> (r: Result<SavedFrame, DispatchError>)
    ensures
        match r {
            Ok(f) => frame_of(stems@, 
                runtime.handle_objects@,
                *frame,
            ) == Some(f@),
            Err(e) => frame_of(stems@, runtime.handle_objects@, *frame) is None,
        },
{
    let ghost st = stems@;
    let ghost handles = runtime.handle_objects@;
    let instruction_pointer = match frame.instruction_pointer {
        Some(ip) => ip,
        None => {
            return Err(save_error("active state iterator cannot round-trip"));
        },
    };
    let mut out: Vec<(i32, SavedValue)> = Vec::new();
    let mut i: usize = 0;
    assert(frame.locals@.subrange(0, frame.locals@.len() as int) =~= frame.locals@);
    assert(views(out@) =~= Seq::<(i32, ValueModel)>::empty());
    while i < frame.locals.len()
        invariant
            st == stems@,
            0 <= i <= frame.locals@.len(),
            handles == runtime.handle_objects@,
            locals_of(st, handles, frame.locals@) == then_rest(
                views(out@),
                locals_of(st, handles, frame.locals@.subrange(i as int, frame.locals@.len() as int)),
            ),
        decreases frame.locals@.len() - i,
    {
        let ghost rest = frame.locals@.subrange(i as int, frame.locals@.len() as int);
        assert(rest.subrange(1, rest.len() as int) =~= frame.locals@.subrange(
            i + 1,
            frame.locals@.len() as int,
        ));
        assert(rest[0] == frame.locals@[i as int]);
        let slot = frame.locals[i].0;
        let value = saved_frame_value(runtime, &frame.locals[i].1, stems)?;
        proof {
            let item = (slot, value);
            assert(item@ == (slot, value_model(value)));
            assert(views(out@.push(item)) =~= views(out@).push(item@));
            if let Some(tail) = locals_of(st, 
                handles,
                frame.locals@.subrange(i + 1, frame.locals@.len() as int),
            ) {
                assert(views(out@) + (seq![item@] + tail) =~= views(out@).push(item@) + tail);
            }
        }
        out.push((slot, value));
        i = i + 1;
    }
    assert(views(out@) + Seq::<(i32, ValueModel)>::empty() =~= views(out@));
    let locals = sorted(out);
    let state = saved_object_with(&frame.state, stems)?;
    if instruction_pointer > u32::MAX as usize {
        return Err(save_error("frame instruction pointer exceeds save format"));
    }
    let saved = SavedFrame {
        state,
        instruction_pointer: instruction_pointer as u32,
        locals,
        latent: saved_latent(frame.latent),
    };
    proof {
        lemma_locals_views(saved.locals@);
    }
    Ok(saved)
}

/// The locals of a saved frame, as a snapshot holds them, are their views.
pub proof fn lemma_locals_views(locals: Seq<(i32, SavedValue)>)
    ensures
        crate::save::model::locals_model(locals) == views(locals),
{
    assert(crate::save::model::locals_model(locals) =~= views(locals));
}

/// A scope's state as a snapshot lists it: none when the events are not
/// scoped to a state.
pub open spec fn state_entry(state: Seq<char>) -> Option<Seq<char>> {
    if state.len() == 0 {
        None
    } else {
        Some(state)
    }
}

/// The events disabled in one scope, each with the scope's state.
pub open spec fn scope_entries(scope: DisabledScope) -> Seq<(Option<Seq<char>>, Seq<char>)> {
    scope.events@.map_values(|e: String| (state_entry(scope.state@), e@))
}

/// The events an actor disabled, scope by scope.
pub open spec fn actor_entries(scopes: Seq<DisabledScope>, actor: usize) -> Seq<
    (Option<Seq<char>>, Seq<char>),
>
    decreases scopes.len(),
{
    if scopes.len() == 0 {
        Seq::empty()
    } else {
        let rest = actor_entries(scopes.subrange(1, scopes.len() as int), actor);
        if scopes[0].actor == actor {
            scope_entries(scopes[0]) + rest
        } else {
            rest
        }
    }
}

/// The events an actor disabled, as a snapshot lists them: in order of
/// state, then event.
pub open spec fn disabled_of(disabled: DisabledEvents, actor: usize) -> Seq<
    (Option<Seq<char>>, Seq<char>),
> {
    sorted_seq::<DisabledEntry>(actor_entries(disabled.scopes@, actor))
}

/// Lists the events an actor disabled.
pub fn saved_disabled_events(disabled: &DisabledEvents, actor: usize) -> (r: Vec<
    (Option<String>, String),
>)
    ensures
        events_model(r@) == disabled_of(*disabled, actor),
{
    let ghost scopes = disabled.scopes@;
    let mut entries: Vec<DisabledEntry> = Vec::new();
    let mut i: usize = 0;
    assert(scopes.subrange(0, scopes.len() as int) =~= scopes);
    assert(views(entries@) =~= Seq::<(Option<Seq<char>>, Seq<char>)>::empty());
    while i < disabled.scopes.len()
        invariant
            0 <= i <= scopes.len(),
            scopes == disabled.scopes@,
            actor_entries(scopes, actor) == views(entries@) + actor_entries(
                scopes.subrange(i as int, scopes.len() as int),
                actor,
            ),
        decreases scopes.len() - i,
    {
        let ghost rest = scopes.subrange(i as int, scopes.len() as int);
        assert(rest.subrange(1, rest.len() as int) =~= scopes.subrange(i + 1, scopes.len() as int));
        assert(rest[0] == scopes[i as int]);
        let scope = &disabled.scopes[i];
        if scope.actor == actor {
            let ghost start = views(entries@);
            let mut k: usize = 0;
            assert(scope_entries(*scope).take(0) =~= Seq::<(Option<Seq<char>>, Seq<char>)>::empty());
            assert(start + Seq::<(Option<Seq<char>>, Seq<char>)>::empty() =~= start);
            while k < scope.events.len()
                invariant
                    0 <= k <= scope.events@.len(),
                    views(entries@) == start + scope_entries(*scope).take(k as int),
                decreases scope.events@.len() - k,
            {
                let state = if scope.state.as_str().is_empty() {
                    None
                } else {
                    Some(scope.state.clone())
                };
                let entry = DisabledEntry { state, event: scope.events[k].clone() };
                proof {
                    assert(entry@ == scope_entries(*scope)[k as int]);
                    assert(scope_entries(*scope).take(k + 1) =~= scope_entries(*scope).take(
                        k as int,
                    ).push(entry@));
                    assert(views(entries@.push(entry)) =~= views(entries@).push(entry@));
                }
                entries.push(entry);
                k = k + 1;
            }
            assert(scope_entries(*scope).take(k as int) =~= scope_entries(*scope));
        }
        i = i + 1;
    }
    assert(actor_entries(scopes.subrange(scopes.len() as int, scopes.len() as int), actor)
        =~= Seq::<(Option<Seq<char>>, Seq<char>)>::empty());
    assert(views(entries@) + Seq::<(Option<Seq<char>>, Seq<char>)>::empty() =~= views(entries@));
    let mut ordered = sorted(entries);
    let ghost all = views(ordered@);
    let mut out: Vec<(Option<String>, String)> = Vec::new();
    assert(events_model(out@) =~= all.take(0));
    while ordered.len() > 0
        invariant
            ordered@.len() <= all.len(),
            views(ordered@) == all.skip(all.len() - ordered@.len()),
            events_model(out@) == all.take(all.len() - ordered@.len()),
        decreases ordered@.len(),
    {
        let ghost k = all.len() - ordered@.len();
        let ghost before = ordered@;
        let entry = ordered.remove(0);
        assert(views(before)[0] == entry@);
        assert(all.skip(k)[0] == all[k]);
        assert(views(ordered@) =~= views(before).skip(1));
        assert(all.skip(k).skip(1) =~= all.skip(k + 1));
        let item = (entry.state, entry.event);
        assert(events_model(out@.push(item)) =~= events_model(out@).push(entry@));
        assert(all.take(k + 1) =~= all.take(k).push(all[k]));
        out.push(item);
    }
    assert(all.take(all.len() as int) =~= all);
    out
}

/// Whether an index is listed.
pub fn lists_actor(actors: &Vec<usize>, actor: usize) -> (r: bool)
    ensures
        r == actors@.contains(actor),
{
    let mut i: usize = 0;
    while i < actors.len()
        invariant
            0 <= i <= actors@.len(),
            forall|j: int| 0 <= j < i ==> actors@[j] != actor,
        decreases actors@.len() - i,
    {
        if actors[i] == actor {
            return true;
        }
        i = i + 1;
    }
    false
}

/// The snapshot of one authored actor, created from `object`: its class,
/// kept instance fields, state, frame, timer, whether it is destroyed, and
/// the events it disabled; nothing when the actor has no class or instance,
/// or a part cannot be converted.
#[verifier::opaque]
pub open spec fn actor_of(st: Stems, runtime: ScriptRuntime, actor: usize, object: ObjectId) -> Option<ActorModel> {
    let handles = runtime.handle_objects@;
    match (table_get(runtime.actor_classes@, actor), table_get(runtime.instances@, actor)) {
        (Some(class), Some(values)) => {
            let frame = match table_get(runtime.state_frames@, actor) {
                Some(f) => match frame_of(st, handles, f) {
                    Some(m) => Some(Some(m)),
                    None => None,
                },
                None => Some(None),
            };
            match (instance_of(st, handles, values@), frame, saved_object_of(st, object@), saved_object_of(st, class@)) {
                (Some(instance), Some(frame), Some(o), Some(c)) => Some(
                    ActorModel {
                        actor,
                        object: o,
                        class: c,
                        instance,
                        state: match table_get(runtime.actor_states@, actor) {
                            Some(Some(s)) => Some(s@),
                            _ => None,
                        },
                        state_revision: match table_get(runtime.state_revisions@, actor) {
                            Some(r) => r,
                            None => 0,
                        },
                        frame,
                        timer: match table_get(runtime.timers@, actor) {
                            Some(t) => Some(
                                SavedTimer { remaining: t.remaining, rate: t.rate, looping: t.looping },
                            ),
                            None => None,
                        },
                        destroyed: runtime.destroyed@.contains(actor),
                        disabled_events: disabled_of(runtime.disabled_events, actor),
                    },
                ),
                _ => None,
            }
        },
        _ => None,
    }
}

impl ScriptRuntime {
    /// The snapshot of one authored actor.
    pub fn save_actor(&self, actor: usize, object: &ObjectId, stems: &StemTable) -> (r: Result<SavedActor, DispatchError>)
        ensures
            match r {
                Ok(a) => actor_of(stems@, *self, actor, *object) == Some(
                    a@,
                ),
                Err(e) => actor_of(stems@, *self, actor, *object) is None,
            },
    {
        let ghost st = stems@;
        proof {
            reveal(actor_of);
        }
        let class_at = match find_entry(&self.actor_classes, actor) {
            Some(i) => i,
            None => {
                return Err(DispatchError::UnregisteredActor { actor });
            },
        };
        let values_at = match find_entry(&self.instances, actor) {
            Some(i) => i,
            None => {
                return Err(DispatchError::ActiveActorContext { actor });
            },
        };
        let instance = saved_instance(self, &self.instances[values_at].1, stems)?;
        let frame = match find_entry(&self.state_frames, actor) {
            Some(i) => Some(saved_frame(self, &self.state_frames[i].1, stems)?),
            None => None,
        };
        let saved = saved_object_with(object, stems)?;
        let class = saved_object_with(&self.actor_classes[class_at].1, stems)?;
        let state = match find_entry(&self.actor_states, actor) {
            Some(i) => match &self.actor_states[i].1 {
                Some(s) => Some(s.clone()),
                None => None,
            },
            None => None,
        };
        let state_revision = match find_entry(&self.state_revisions, actor) {
            Some(i) => self.state_revisions[i].1,
            None => 0,
        };
        let timer = match find_entry(&self.timers, actor) {
            Some(i) => {
                let t = self.timers[i].1;
                Some(SavedTimer { remaining: t.remaining, rate: t.rate, looping: t.looping })
            },
            None => None,
        };
        let destroyed = lists_actor(&self.destroyed, actor);
        let disabled_events = saved_disabled_events(&self.disabled_events, actor);
        let result = SavedActor {
            actor,
            object: saved,
            class,
            instance,
            state,
            state_revision,
            frame,
            timer,
            destroyed,
            disabled_events,
        };
        proof {
            assert(crate::save::model::pairs_model(result.instance@) =~= views(result.instance@));
        }
        Ok(result)
    }
}

/// Whether the object `objects` registers for an actor is a run-time one.
pub open spec fn spawned(objects: Seq<(usize, ObjectId)>, actor: usize) -> bool {
    match table_get(objects, actor) {
        Some(o) => o@.package == runtime_package(),
        None => false,
    }
}

/// Whether an actor was spawned at run time; a snapshot leaves such actors
/// out.
pub open spec fn transient(runtime: ScriptRuntime, actor: usize) -> bool {
    spawned(runtime.actor_objects@, actor)
}

/// Whether the object registered for an actor is a run-time one.
pub fn spawned_actor(objects: &Vec<(usize, ObjectId)>, actor: usize) -> (r: bool)
    ensures
        r == spawned(objects@, actor),
{
    match find_entry(objects, actor) {
        Some(i) => is_runtime_object(&objects[i].1),
        None => false,
    }
}

/// What an actor's snapshot records of its identity: its index, its object
/// and its class as the runtime registers them.
pub proof fn lemma_actor_of_identity(st: Stems, runtime: ScriptRuntime, actor: usize, object: ObjectId)
    requires
        actor_of(st, runtime, actor, object) is Some,
    ensures
        ({
            let a = actor_of(st, runtime, actor, object)->0;
            &&& a.actor == actor
            &&& saved_object_of(st, object@) == Some(a.object)
            &&& table_get(runtime.actor_classes@, actor) matches Some(class) && saved_object_of(st, class@)
                == Some(a.class)
        }),
{
    reveal(actor_of);
}

/// The authored actors of the runtime, in the order they are registered;
/// nothing when one cannot be converted.
pub open spec fn actors_of(st: Stems, runtime: ScriptRuntime, objects: Seq<(usize, ObjectId)>) -> Option<
    Seq<ActorModel>,
>
    decreases objects.len(),
{
    if objects.len() == 0 {
        Some(Seq::empty())
    } else {
        let rest = actors_of(st, runtime, objects.subrange(1, objects.len() as int));
        if objects[0].1@.package == runtime_package() {
            rest
        } else {
            match actor_of(st, runtime, objects[0].0, objects[0].1) {
                Some(a) => then_rest(seq![a], rest),
                None => None,
            }
        }
    }
}

/// The non-actor objects of the runtime with their kept fields; nothing
/// when one cannot be converted.
pub open spec fn instances_of(st: Stems, runtime: ScriptRuntime, instances: Seq<(ObjectId, ObjectId, InstanceState)>) -> Option<
    Seq<InstanceModel>,
>
    decreases instances.len(),
{
    if instances.len() == 0 {
        Some(Seq::empty())
    } else {
        let rest = instances_of(st, runtime, instances.subrange(1, instances.len() as int));
        let (object, class, values) = instances[0];
        match (
            instance_of(st, runtime.handle_objects@, values@),
            saved_object_of(st, object@),
            saved_object_of(st, class@),
        ) {
            (Some(instance), Some(o), Some(c)) => then_rest(
                seq![InstanceModel { object: o, class: c, instance }],
                rest,
            ),
            _ => None,
        }
    }
}

/// The animations authored actors play; nothing when a rate or tween time
/// is not finite.
pub open spec fn commands_of(runtime: ScriptRuntime, commands: Seq<(usize, AnimationCommand)>) -> Option<
    Seq<CommandModel>,
>
    decreases commands.len(),
{
    if commands.len() == 0 {
        Some(Seq::empty())
    } else {
        let rest = commands_of(runtime, commands.subrange(1, commands.len() as int));
        let (actor, c) = commands[0];
        if transient(runtime, actor) {
            rest
        } else if !finite_bits(c.relative_rate) || !finite_bits(c.tween_time) {
            None
        } else {
            then_rest(
                seq![
                    CommandModel {
                        actor,
                        sequence: c.sequence@,
                        relative_rate: c.relative_rate,
                        tween_time: c.tween_time,
                        looping: c.looping,
                        tween_only: c.tween_only,
                        root_motion: c.root_motion,
                    },
                ],
                rest,
            )
        }
    }
}

/// The channels of one actor that an authored actor drives.
pub open spec fn actor_channels_of(runtime: ScriptRuntime, actor: usize, channels: Seq<AnimationChannel>) -> Seq<
    SavedAnimationChannel,
>
    decreases channels.len(),
{
    if channels.len() == 0 {
        Seq::empty()
    } else {
        let rest = actor_channels_of(runtime, actor, channels.subrange(1, channels.len() as int));
        if transient(runtime, channels[0].actor) {
            rest
        } else {
            seq![
                SavedAnimationChannel {
                    actor,
                    root_bone: channels[0].root_bone,
                    target: channels[0].actor,
                },
            ] + rest
        }
    }
}

/// The animation channels between authored actors.
pub open spec fn channels_of(runtime: ScriptRuntime, channels: Seq<(usize, Vec<AnimationChannel>)>) -> Seq<
    SavedAnimationChannel,
>
    decreases channels.len(),
{
    if channels.len() == 0 {
        Seq::empty()
    } else {
        let rest = channels_of(runtime, channels.subrange(1, channels.len() as int));
        if transient(runtime, channels[0].0) {
            rest
        } else {
            actor_channels_of(runtime, channels[0].0, channels[0].1@) + rest
        }
    }
}

/// The listed actors that are authored.
pub open spec fn kept(runtime: ScriptRuntime, actors: Seq<usize>) -> Seq<usize>
    decreases actors.len(),
{
    if actors.len() == 0 {
        Seq::empty()
    } else {
        let rest = kept(runtime, actors.subrange(1, actors.len() as int));
        if transient(runtime, actors[0]) {
            rest
        } else {
            seq![actors[0]] + rest
        }
    }
}

/// The snapshot of the runtime for `map`: authored actors by index, objects
/// and their fields in object order, animations of authored actors by
/// actor, channels by actor, bone and target, and the actor lists in
/// increasing order; nothing when a part cannot be converted.
pub open spec fn snapshot_of(st: Stems, runtime: ScriptRuntime, map: Seq<char>) -> Option<RuntimeModel> {
    match (
        actors_of(st, runtime, runtime.actor_objects@),
        instances_of(st, runtime, runtime.object_instances@),
        commands_of(runtime, runtime.animation_commands@),
    ) {
        (Some(actors), Some(instances), Some(commands)) => Some(
            RuntimeModel {
                map,
                random_state: runtime.random_state,
                player_alt_fire_pressed: runtime.player_alt_fire_pressed,
                actors: sorted_seq::<SavedActor>(actors),
                object_instances: sorted_seq::<SavedObjectInstance>(instances),
                animation_commands: sorted_seq::<SavedAnimationCommand>(commands),
                animation_channels: sorted_seq::<SavedAnimationChannel>(
                    channels_of(runtime, runtime.animation_channels@),
                ),
                animating: sorted_seq::<usize>(kept(runtime, runtime.animating@)),
                player_probe_touching: sorted_seq::<usize>(
                    kept(runtime, runtime.player_probe_touching@),
                ),
            },
        ),
        _ => None,
    }
}

/// A map identifier a snapshot can record: not empty, at most 1024 bytes,
/// on one line.
pub open spec fn map_ok(map: Seq<char>) -> bool {
    &&& map.len() > 0
    &&& encode_utf8(map).len() <= 1024
    &&& !map.contains('\r')
    &&& !map.contains('\n')
}

/// The snapshot `save_game` writes for `map`: the runtime's snapshot, when
/// the map identifier is valid, no script is running, and the snapshot
/// converts, is within the format's limits and its bytes within
/// `MAX_SAVE_BYTES`.
pub open spec fn saved_game(st: Stems, runtime: ScriptRuntime, map: Seq<char>) -> Option<RuntimeModel> {
    if map_ok(map) && runtime.active_state_actor is None && runtime.pending_latent is None {
        match snapshot_of(st, runtime, map) {
            Some(m) => if runtime_writable(m) && runtime_le(m).len() <= MAX_SAVE_BYTES {
                Some(m)
            } else {
                None
            },
            None => None,
        }
    } else {
        None
    }
}

impl ScriptRuntime {
    /// Whether an actor was spawned at run time.
    pub fn transient_actor(&self, actor: usize) -> (r: bool)
        ensures
            r == transient(*self, actor),
    {
        spawned_actor(&self.actor_objects, actor)
    }

    fn saved_actors(&self, stems: &StemTable) -> (r: Result<Vec<SavedActor>, DispatchError>)
        ensures
            match r {
                Ok(v) => actors_of(stems@, 
                    *self,
                    self.actor_objects@,
                ) == Some(actors_model(v@)),
                Err(e) => actors_of(stems@, *self, self.actor_objects@) is None,
            },
    {
        let ghost st = stems@;
        let ghost all = self.actor_objects@;
        let mut out: Vec<SavedActor> = Vec::new();
        let mut i: usize = 0;
        assert(all.subrange(0, all.len() as int) =~= all);
        assert(actors_model(out@) =~= Seq::<ActorModel>::empty());
        while i < self.actor_objects.len()
            invariant
                st == stems@,
                0 <= i <= all.len(),
                all == self.actor_objects@,
                actors_of(st, *self, all) == then_rest(
                    actors_model(out@),
                    actors_of(st, *self, all.subrange(i as int, all.len() as int)),
                ),
            decreases all.len() - i,
        {
            let ghost rest = all.subrange(i as int, all.len() as int);
            assert(rest.subrange(1, rest.len() as int) =~= all.subrange(i + 1, all.len() as int));
            assert(rest[0] == all[i as int]);
            let actor = self.actor_objects[i].0;
            if !is_runtime_object(&self.actor_objects[i].1) {
                let saved = self.save_actor(actor, &self.actor_objects[i].1, stems)?;
                proof {
                    assert(actors_model(out@.push(saved)) =~= actors_model(out@).push(saved@));
                    if let Some(tail) = actors_of(st, *self, all.subrange(i + 1, all.len() as int)) {
                        assert(actors_model(out@) + (seq![saved@] + tail) =~= actors_model(out@).push(
                            saved@,
                        ) + tail);
                    }
                }
                out.push(saved);
            }
            i = i + 1;
        }
        assert(actors_model(out@) + Seq::<ActorModel>::empty() =~= actors_model(out@));
        Ok(out)
    }

    fn saved_object_instances(&self, stems: &StemTable) -> (r: Result<Vec<SavedObjectInstance>, DispatchError>)
        ensures
            match r {
                Ok(v) => instances_of(stems@, 
                    *self,
                    self.object_instances@,
                ) == Some(instances_model(v@)),
                Err(e) => instances_of(stems@, *self, self.object_instances@) is None,
            },
    {
        let ghost st = stems@;
        let ghost all = self.object_instances@;
        let mut out: Vec<SavedObjectInstance> = Vec::new();
        let mut i: usize = 0;
        assert(all.subrange(0, all.len() as int) =~= all);
        assert(instances_model(out@) =~= Seq::<InstanceModel>::empty());
        while i < self.object_instances.len()
            invariant
                st == stems@,
                0 <= i <= all.len(),
                all == self.object_instances@,
                instances_of(st, *self, all) == then_rest(
                    instances_model(out@),
                    instances_of(st, *self, all.subrange(i as int, all.len() as int)),
                ),
            decreases all.len() - i,
        {
            let ghost rest = all.subrange(i as int, all.len() as int);
            assert(rest.subrange(1, rest.len() as int) =~= all.subrange(i + 1, all.len() as int));
            assert(rest[0] == all[i as int]);
            let entry = &self.object_instances[i];
            let instance = saved_instance(self, &entry.2, stems)?;
            let object = saved_object_with(&entry.0, stems)?;
            let class = saved_object_with(&entry.1, stems)?;
            let saved = SavedObjectInstance { object, class, instance };
            proof {
                assert(crate::save::model::pairs_model(saved.instance@) =~= views(saved.instance@));
                assert(instances_model(out@.push(saved)) =~= instances_model(out@).push(saved@));
                if let Some(tail) = instances_of(st, *self, all.subrange(i + 1, all.len() as int)) {
                    assert(instances_model(out@) + (seq![saved@] + tail) =~= instances_model(
                        out@,
                    ).push(saved@) + tail);
                }
            }
            out.push(saved);
            i = i + 1;
        }
        assert(instances_model(out@) + Seq::<InstanceModel>::empty() =~= instances_model(out@));
        Ok(out)
    }

    fn saved_animation_commands(&self) -> (r: Result<Vec<SavedAnimationCommand>, DispatchError>)
        ensures
            match r {
                Ok(v) => commands_of(*self, self.animation_commands@) == Some(commands_model(v@)),
                Err(e) => commands_of(*self, self.animation_commands@) is None,
            },
    {
        let ghost all = self.animation_commands@;
        let mut out: Vec<SavedAnimationCommand> = Vec::new();
        let mut i: usize = 0;
        assert(all.subrange(0, all.len() as int) =~= all);
        assert(commands_model(out@) =~= Seq::<CommandModel>::empty());
        while i < self.animation_commands.len()
            invariant
                0 <= i <= all.len(),
                all == self.animation_commands@,
                commands_of(*self, all) == then_rest(
                    commands_model(out@),
                    commands_of(*self, all.subrange(i as int, all.len() as int)),
                ),
            decreases all.len() - i,
        {
            let ghost rest = all.subrange(i as int, all.len() as int);
            assert(rest.subrange(1, rest.len() as int) =~= all.subrange(i + 1, all.len() as int));
            assert(rest[0] == all[i as int]);
            let actor = self.animation_commands[i].0;
            if !self.transient_actor(actor) {
                let command = &self.animation_commands[i].1;
                if command.relative_rate & 0x7f80_0000 == 0x7f80_0000 || command.tween_time
                    & 0x7f80_0000 == 0x7f80_0000 {
                    return Err(save_error("animation command contains a non-finite value"));
                }
                let saved = SavedAnimationCommand {
                    actor,
                    sequence: command.sequence.clone(),
                    relative_rate: command.relative_rate,
                    tween_time: command.tween_time,
                    looping: command.looping,
                    tween_only: command.tween_only,
                    root_motion: command.root_motion,
                };
                proof {
                    assert(commands_model(out@.push(saved)) =~= commands_model(out@).push(saved@));
                    if let Some(tail) = commands_of(*self, all.subrange(i + 1, all.len() as int)) {
                        assert(commands_model(out@) + (seq![saved@] + tail) =~= commands_model(
                            out@,
                        ).push(saved@) + tail);
                    }
                }
                out.push(saved);
            }
            i = i + 1;
        }
        assert(commands_model(out@) + Seq::<CommandModel>::empty() =~= commands_model(out@));
        Ok(out)
    }

    fn saved_animation_channels(&self) -> (r: Vec<SavedAnimationChannel>)
        ensures
            r@ == channels_of(*self, self.animation_channels@),
    {
        let ghost all = self.animation_channels@;
        let mut out: Vec<SavedAnimationChannel> = Vec::new();
        let mut i: usize = 0;
        assert(all.subrange(0, all.len() as int) =~= all);
        assert(out@ + channels_of(*self, all) =~= channels_of(*self, all));
        while i < self.animation_channels.len()
            invariant
                0 <= i <= all.len(),
                all == self.animation_channels@,
                channels_of(*self, all) == out@ + channels_of(
                    *self,
                    all.subrange(i as int, all.len() as int),
                ),
            decreases all.len() - i,
        {
            let ghost rest = all.subrange(i as int, all.len() as int);
            assert(rest.subrange(1, rest.len() as int) =~= all.subrange(i + 1, all.len() as int));
            assert(rest[0] == all[i as int]);
            let actor = self.animation_channels[i].0;
            if !self.transient_actor(actor) {
                let channels = &self.animation_channels[i].1;
                let ghost inner = channels@;
                let ghost start = out@;
                let mut k: usize = 0;
                assert(inner.subrange(0, inner.len() as int) =~= inner);
                assert(start + actor_channels_of(*self, actor, inner) =~= out@
                    + actor_channels_of(*self, actor, inner));
                while k < channels.len()
                    invariant
                        0 <= k <= inner.len(),
                        inner == channels@,
                        start + actor_channels_of(*self, actor, inner) == out@ + actor_channels_of(
                            *self,
                            actor,
                            inner.subrange(k as int, inner.len() as int),
                        ),
                    decreases inner.len() - k,
                {
                    let ghost part = inner.subrange(k as int, inner.len() as int);
                    assert(part.subrange(1, part.len() as int) =~= inner.subrange(
                        k + 1,
                        inner.len() as int,
                    ));
                    assert(part[0] == inner[k as int]);
                    let channel = channels[k];
                    if !self.transient_actor(channel.actor) {
                        let saved = SavedAnimationChannel {
                            actor,
                            root_bone: channel.root_bone,
                            target: channel.actor,
                        };
                        assert(out@ + (seq![saved] + actor_channels_of(
                            *self,
                            actor,
                            inner.subrange(k + 1, inner.len() as int),
                        )) =~= out@.push(saved) + actor_channels_of(
                            *self,
                            actor,
                            inner.subrange(k + 1, inner.len() as int),
                        ));
                        out.push(saved);
                    }
                    k = k + 1;
                }
                assert(actor_channels_of(*self, actor, inner.subrange(inner.len() as int, inner.len() as int))
                    =~= Seq::<SavedAnimationChannel>::empty());
                assert(out@ + Seq::<SavedAnimationChannel>::empty() =~= out@);
                assert(start + (actor_channels_of(*self, actor, inner) + channels_of(
                    *self,
                    all.subrange(i + 1, all.len() as int),
                )) =~= (start + actor_channels_of(*self, actor, inner)) + channels_of(
                    *self,
                    all.subrange(i + 1, all.len() as int),
                ));
            }
            i = i + 1;
        }
        assert(out@ + Seq::<SavedAnimationChannel>::empty() =~= out@);
        out
    }

    fn kept_actors(&self, actors: &Vec<usize>) -> (r: Vec<usize>)
        ensures
            r@ == kept(*self, actors@),
    {
        let ghost all = actors@;
        let mut out: Vec<usize> = Vec::new();
        let mut i: usize = 0;
        assert(all.subrange(0, all.len() as int) =~= all);
        assert(out@ + kept(*self, all) =~= kept(*self, all));
        while i < actors.len()
            invariant
                0 <= i <= all.len(),
                all == actors@,
                kept(*self, all) == out@ + kept(*self, all.subrange(i as int, all.len() as int)),
            decreases all.len() - i,
        {
            let ghost rest = all.subrange(i as int, all.len() as int);
            assert(rest.subrange(1, rest.len() as int) =~= all.subrange(i + 1, all.len() as int));
            assert(rest[0] == all[i as int]);
            if !self.transient_actor(actors[i]) {
                assert(out@ + (seq![actors[i as int]] + kept(*self, all.subrange(i + 1, all.len() as int)))
                    =~= out@.push(actors[i as int]) + kept(*self, all.subrange(i + 1, all.len() as int)));
                out.push(actors[i]);
            }
            i = i + 1;
        }
        assert(out@ + Seq::<usize>::empty() =~= out@);
        out
    }

    /// Encodes the runtime's mutable state for one map, the stems of
    /// platform-dependent package paths coming from `stems`: the snapshot
    /// `saved_game` describes, or an error when there is none. A snapshot
    /// records authored actors only, and no package bytes.
    pub fn save_game_with(&self, map: &str, stems: &StemTable) -> (r: Result<Vec<u8>, DispatchError>)
        ensures
            match r {
                Ok(bytes) => saved_game(stems@, *self, map@) matches Some(m) && bytes@ == runtime_le(m),
                Err(e) => saved_game(stems@, *self, map@) is None,
            },
            r matches Ok(bytes) ==> save_header(map@).len() <= bytes@.len() <= MAX_SAVE_BYTES && bytes@.subrange(
                0,
                save_header(map@).len() as int,
            ) == save_header(map@),
            commands_of(*self, self.animation_commands@) is None ==> r is Err,
            !authored_timers_finite(*self) ==> r is Err,
            r matches Ok(bytes) ==> exists|m: RuntimeModel| #[trigger] runtime_le(m) == bytes@ && m.map == map@ && lists_authored(*self, m),
            !map_ok(map@) ==> (r matches Err(e) && e is SaveState),
            map_ok(map@) && (self.active_state_actor is Some || self.pending_latent is Some) ==> (
            r matches Err(e) && e is SaveState),
    {
        let ghost st = stems@;
        let byte_count = map.as_bytes().len();
        if map.is_empty() || byte_count > 1024 || contains_either(map, '\r', '\n') {
            return Err(save_error("map identifier is invalid"));
        }
        if self.active_state_actor.is_some() || self.pending_latent.is_some() {
            return Err(save_error("active script execution cannot be snapshotted"));
        }
        let actors = self.saved_actors(stems)?;
        let object_instances = self.saved_object_instances(stems)?;
        let animation_commands = self.saved_animation_commands()?;
        let animation_channels = self.saved_animation_channels();
        let animating = self.kept_actors(&self.animating);
        let player_probe_touching = self.kept_actors(&self.player_probe_touching);
        let snapshot = SavedRuntime {
            map: map.to_owned(),
            random_state: self.random_state,
            player_alt_fire_pressed: self.player_alt_fire_pressed,
            actors: sorted(actors),
            object_instances: sorted(object_instances),
            animation_commands: sorted(animation_commands),
            animation_channels: sorted(animation_channels),
            animating: sorted(animating),
            player_probe_touching: sorted(player_probe_touching),
        };
        proof {
            assert(actors_model(snapshot.actors@) =~= views(snapshot.actors@));
            assert(instances_model(snapshot.object_instances@) =~= views(snapshot.object_instances@));
            assert(commands_model(snapshot.animation_commands@) =~= views(
                snapshot.animation_commands@,
            ));
            assert(snapshot.animation_channels@ =~= views(snapshot.animation_channels@));
            assert(snapshot.animating@ =~= views(snapshot.animating@));
            assert(snapshot.player_probe_touching@ =~= views(snapshot.player_probe_touching@));
            assert(actors_model(actors@) =~= views(actors@));
            assert(instances_model(object_instances@) =~= views(object_instances@));
            assert(commands_model(animation_commands@) =~= views(animation_commands@));
            assert(animation_channels@ =~= views(animation_channels@));
            assert(animating@ =~= views(animating@));
            assert(player_probe_touching@ =~= views(player_probe_touching@));
            if snapshot_of(st, *self, map@) is Some {
                assert(snapshot_of(st, *self, map@) == Some(snapshot@));
            }
        }
        let mut writer = SaveWriter::new();
        write_runtime(&mut writer, &snapshot)?;
        if writer.bytes.len() > MAX_SAVE_BYTES {
            return Err(save_error("snapshot exceeds the 64 MiB limit"));
        }
        assert(writer.bytes@ =~= runtime_le(snapshot@));
        proof {
            lemma_save_header(snapshot@);
            lemma_saved_lists_authored(st, *self, map@);
            lemma_saved_timers_finite(st, *self, map@);
        }
        Ok(writer.bytes)
    }

    /// The package paths of the objects a save converts: those of the
    /// registered actors and their classes, of object handles, of instance
    /// fields and the objects stored in them, of non-actor objects and
    /// their classes, and of suspended states.
    pub fn package_paths(&self) -> (r: Vec<String>) {
        let mut paths: Vec<String> = Vec::new();
        let mut i: usize = 0;
        while i < self.actor_objects.len()
            decreases self.actor_objects@.len() - i,
        {
            paths.push(self.actor_objects[i].1.package.clone());
            i = i + 1;
        }
        i = 0;
        while i < self.actor_classes.len()
            decreases self.actor_classes@.len() - i,
        {
            paths.push(self.actor_classes[i].1.package.clone());
            i = i + 1;
        }
        i = 0;
        while i < self.handle_objects.len()
            decreases self.handle_objects@.len() - i,
        {
            paths.push(self.handle_objects[i].package.clone());
            i = i + 1;
        }
        i = 0;
        while i < self.instances.len()
            decreases self.instances@.len() - i,
        {
            instance_paths(&self.instances[i].1, &mut paths);
            i = i + 1;
        }
        i = 0;
        while i < self.object_instances.len()
            decreases self.object_instances@.len() - i,
        {
            paths.push(self.object_instances[i].0.package.clone());
            paths.push(self.object_instances[i].1.package.clone());
            instance_paths(&self.object_instances[i].2, &mut paths);
            i = i + 1;
        }
        i = 0;
        while i < self.state_frames.len()
            decreases self.state_frames@.len() - i,
        {
            paths.push(self.state_frames[i].1.state.package.clone());
            i = i + 1;
        }
        paths
    }

    /// Encodes the runtime's mutable state for one map, as `save_game_with`
    /// does with the stems `Path::file_stem` gives for the runtime's
    /// package paths. A snapshot records authored actors only, and no
    /// package bytes.
    pub fn save_game(&self, map: &str) -> (r: Result<Vec<u8>, DispatchError>)
        ensures
            exists|st: Stems| #[trigger] save_outcome(st, *self, map@, r),
            r matches Ok(bytes) ==> save_header(map@).len() <= bytes@.len() <= MAX_SAVE_BYTES && bytes@.subrange(
                0,
                save_header(map@).len() as int,
            ) == save_header(map@),
            commands_of(*self, self.animation_commands@) is None ==> r is Err,
            !authored_timers_finite(*self) ==> r is Err,
            r matches Ok(bytes) ==> exists|m: RuntimeModel| #[trigger] runtime_le(m) == bytes@ && m.map == map@ && lists_authored(*self, m),
            !map_ok(map@) ==> (r matches Err(e) && e is SaveState),
            map_ok(map@) && (self.active_state_actor is Some || self.pending_latent is Some) ==> (
            r matches Err(e) && e is SaveState),
    {
        let paths = self.package_paths();
        let stems = stem_table(&paths);
        let r = self.save_game_with(map, &stems);
        assert(save_outcome(stems@, *self, map@, r));
        proof {
            if r is Ok {
                lemma_saved_lists_authored(stems@, *self, map@);
                lemma_saved_timers_finite(stems@, *self, map@);
            }
        }
        r
    }
}

/// The bytes every save for `map` starts with: the format's magic and
/// version, then the map identifier.
pub open spec fn save_header(map: Seq<char>) -> Seq<u8> {
    magic() + (u16_le(VERSION) + string_le(map))
}

/// The bytes of a snapshot start with the header for its map.
pub proof fn lemma_save_header(m: RuntimeModel)
    ensures
        save_header(m.map).len() <= runtime_le(m).len(),
        runtime_le(m).subrange(0, save_header(m.map).len() as int) == save_header(m.map),
{
    reveal(runtime_le);
    let h = save_header(m.map);
    let b = runtime_le(m);
    assert(b.subrange(0, h.len() as int) =~= h);
}

/// What a save of `runtime` for `map` answers, the stems of
/// platform-dependent package paths being `st`: the bytes of the snapshot
/// `saved_game` gives, or an error when it gives none.
pub open spec fn save_outcome(st: Stems, runtime: ScriptRuntime, map: Seq<char>, r: Result<Vec<u8>, DispatchError>) -> bool {
    match r {
        Ok(bytes) => saved_game(st, runtime, map) matches Some(m) && bytes@ == runtime_le(m),
        Err(e) => saved_game(st, runtime, map) is None,
    }
}

/// Adds the package paths of an instance's fields and of the objects
/// stored in them.
fn instance_paths(values: &InstanceState, paths: &mut Vec<String>) {
    let mut i: usize = 0;
    while i < values.len()
        decreases values@.len() - i,
    {
        paths.push(values[i].0.package.clone());
        let mut inner = stored_paths(&values[i].1);
        paths.append(&mut inner);
        i = i + 1;
    }
}

} // verus!
