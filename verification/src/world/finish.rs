//! The last step of a restore: the package objects a restore plan names,
//! resolved by the host, written into the runtime: the saved fields of the
//! restored actors, the saved non-actor objects and the suspended state
//! code.
use vstd::prelude::*;
use crate::error::{DispatchError, save_error};
use crate::save::model::{ObjectModel, SavedActor, SavedFrame, SavedObject, SavedObjectInstance, SavedValue};
use crate::value::{ObjectId, ObjectIdModel, StoredValue, Value};
use crate::world::apply::{refs_resolve, snapshot_resolves};
use crate::world::capture::table_get;
use crate::world::resolved::{
    field_get, find_resolution, merged_get, plain_restorable, plain_restored, resolution_of, restored_plain_value,
};
use crate::world::restore::{restore_latent, restored_latent, saved_actor_target, RestorePlan};
use crate::world::runtime::{InstanceState, ScriptRuntime, StateFrame};

verus! {

/// Whether a saved field value can be stored with the resolved objects:
/// every object it names is resolved, and an unresolved object names none
/// only inside a script value.
pub open spec fn stored_restorable(t: Seq<(SavedObject, ObjectId, i32)>, s: SavedValue) -> bool
    decreases s,
{
    match s {
        SavedValue::Name(_) => true,
        SavedValue::Object(None) => true,
        SavedValue::Object(Some(o)) => resolution_of(t, o@) is Some,
        SavedValue::SelfObject => true,
        SavedValue::UnresolvedObject(_) => true,
        SavedValue::Array(values) => stored_values_restorable(t, values@),
        _ => plain_restorable(t, s),
    }
}

pub open spec fn stored_values_restorable(t: Seq<(SavedObject, ObjectId, i32)>, values: Seq<SavedValue>) -> bool
    decreases values,
{
    values.len() == 0 || (stored_values_restorable(t, values.subrange(0, values.len() - 1))
        && stored_restorable(t, values[values.len() - 1]))
}

/// Whether `v` is the field value a saved one is stored as: names, object
/// references and arrays as they are, objects becoming the objects they
/// resolved to, anything else the script value it restores to.
pub open spec fn stored_restored(t: Seq<(SavedObject, ObjectId, i32)>, s: SavedValue, v: StoredValue) -> bool
    decreases s,
{
    match s {
        SavedValue::Name(x) => v matches StoredValue::Name(y) && y@ == x@,
        SavedValue::Object(None) => v matches StoredValue::Object(None),
        SavedValue::Object(Some(o)) => resolution_of(t, o@) matches Some(r) && v matches StoredValue::Object(Some(x))
            && x@ == r.0@,
        SavedValue::SelfObject => v matches StoredValue::SelfObject,
        SavedValue::UnresolvedObject(x) => v matches StoredValue::UnresolvedObject(y) && y@ == x@,
        SavedValue::Array(values) => v matches StoredValue::Array(out) && stored_values_restored(t, values@, out@),
        _ => v matches StoredValue::Value(p) && plain_restored(t, s, p),
    }
}

pub open spec fn stored_values_restored(
    t: Seq<(SavedObject, ObjectId, i32)>,
    values: Seq<SavedValue>,
    out: Seq<StoredValue>,
) -> bool
    decreases values,
{
    values.len() == out.len() && (values.len() == 0 || (stored_values_restored(
        t,
        values.subrange(0, values.len() - 1),
        out.subrange(0, out.len() - 1),
    ) && stored_restored(t, values[values.len() - 1], out[out.len() - 1])))
}

proof fn lemma_stored_values_restorable_each(t: Seq<(SavedObject, ObjectId, i32)>, values: Seq<SavedValue>, k: int)
    requires
        stored_values_restorable(t, values),
        0 <= k < values.len(),
    ensures
        stored_restorable(t, values[k]),
    decreases values.len(),
{
    if k < values.len() - 1 {
        let init = values.subrange(0, values.len() - 1);
        lemma_stored_values_restorable_each(t, init, k);
        assert(init[k] == values[k]);
    }
}

/// Stores a saved field value with the resolved objects. Fails when it
/// names an object that was not resolved, or holds an unresolved object
/// inside a script value.
pub fn restored_stored_value(value: &SavedValue, table: &Vec<(SavedObject, ObjectId, i32)>) -> (r: Result<
    StoredValue,
    DispatchError,
>)
    ensures
        match r {
            Ok(v) => stored_restorable(table@, *value) && stored_restored(table@, *value, v),
            Err(e) => !stored_restorable(table@, *value) && e is SaveState,
        },
    decreases value,
{
    match value {
        SavedValue::Name(x) => Ok(StoredValue::Name(x.clone())),
        SavedValue::Object(None) => Ok(StoredValue::Object(None)),
        SavedValue::Object(Some(o)) => match find_resolution(table, o) {
            Some(i) => Ok(StoredValue::Object(Some(table[i].1.duplicate()))),
            None => Err(save_error("saved object was not resolved")),
        },
        SavedValue::SelfObject => Ok(StoredValue::SelfObject),
        SavedValue::UnresolvedObject(x) => Ok(StoredValue::UnresolvedObject(x.clone())),
        SavedValue::Array(values) => {
            let mut out: Vec<StoredValue> = Vec::new();
            let mut i: usize = 0;
            assert forall|k: int| 0 <= k < values@.len() implies decreases_to!(*value => values@[k]) by {
                assert(decreases_to!(*value => values@[k]));
            }
            while i < values.len()
                invariant
                    0 <= i <= values@.len(),
                    *value == SavedValue::Array(*values),
                    forall|k: int| 0 <= k < values@.len() ==> decreases_to!(*value => values@[k]),
                    stored_values_restorable(table@, values@.subrange(0, i as int)),
                    stored_values_restored(table@, values@.subrange(0, i as int), out@),
                decreases values@.len() - i,
            {
                assert(decreases_to!(*value => values@[i as int]));
                let converted = match restored_stored_value(&values[i], table) {
                    Ok(v) => v,
                    Err(e) => {
                        proof {
                            if stored_values_restorable(table@, values@) {
                                lemma_stored_values_restorable_each(table@, values@, i as int);
                            }
                        }
                        return Err(e);
                    },
                };
                let ghost before = out@;
                out.push(converted);
                proof {
                    let next = values@.subrange(0, i + 1);
                    assert(next.subrange(0, i as int) =~= values@.subrange(0, i as int));
                    assert(out@.subrange(0, i as int) =~= before);
                }
                i = i + 1;
            }
            assert(values@.subrange(0, values@.len() as int) =~= values@);
            Ok(StoredValue::Array(out))
        },
        _ => match restored_plain_value(value, table) {
            Ok(p) => Ok(StoredValue::Value(p)),
            Err(e) => Err(e),
        },
    }
}

/// Whether the saved fields of an object can be stored with the resolved
/// objects: each field and each value.
pub open spec fn fields_resolvable(t: Seq<(SavedObject, ObjectId, i32)>, saved: Seq<(SavedObject, SavedValue)>) -> bool {
    forall|k: int|
        0 <= k < saved.len() ==> resolution_of(t, (#[trigger] saved[k]).0@) is Some && stored_restorable(
            t,
            saved[k].1,
        )
}

/// Whether `out` is what saved fields are stored as: each field the object
/// it resolved to, with the value it is stored as, in the same order.
pub open spec fn fields_resolved(
    t: Seq<(SavedObject, ObjectId, i32)>,
    saved: Seq<(SavedObject, SavedValue)>,
    out: Seq<(ObjectId, StoredValue)>,
) -> bool {
    &&& out.len() == saved.len()
    &&& forall|k: int|
        0 <= k < saved.len() ==> (resolution_of(t, (#[trigger] saved[k]).0@) matches Some(r) && out[k].0@ == r.0@
            && stored_restored(t, saved[k].1, out[k].1))
}

/// Stores saved fields with the resolved objects.
pub fn restored_fields(saved: &Vec<(SavedObject, SavedValue)>, table: &Vec<(SavedObject, ObjectId, i32)>) -> (r: Result<
    InstanceState,
    DispatchError,
>)
    ensures
        match r {
            Ok(out) => fields_resolvable(table@, saved@) && fields_resolved(table@, saved@, out@),
            Err(e) => !fields_resolvable(table@, saved@) && e is SaveState,
        },
{
    let mut out: InstanceState = Vec::new();
    let mut i: usize = 0;
    while i < saved.len()
        invariant
            0 <= i <= saved@.len(),
            out@.len() == i,
            forall|k: int|
                0 <= k < i ==> (resolution_of(table@, (#[trigger] saved@[k]).0@) matches Some(r) && out@[k].0@ == r.0@
                    && stored_restored(table@, saved@[k].1, out@[k].1) && stored_restorable(table@, saved@[k].1)),
        decreases saved@.len() - i,
    {
        let field = match find_resolution(table, &saved[i].0) {
            Some(j) => table[j].1.duplicate(),
            None => {
                assert(resolution_of(table@, saved@[i as int].0@) is None);
                return Err(save_error("saved field object was not resolved"));
            },
        };
        let value = match restored_stored_value(&saved[i].1, table) {
            Ok(v) => v,
            Err(e) => {
                return Err(e);
            },
        };
        out.push((field, value));
        i = i + 1;
    }
    Ok(out)
}

/// Whether a saved suspended state can be restored with the resolved
/// objects and the actors the saved ones restore onto.
pub open spec fn frame_resolvable(t: Seq<(SavedObject, ObjectId, i32)>, targets: Seq<(usize, usize)>, f: SavedFrame) -> bool {
    &&& resolution_of(t, f.state@) is Some
    &&& restored_latent(f.latent, targets) is Some
    &&& forall|k: int| 0 <= k < f.locals@.len() ==> plain_restorable(t, (#[trigger] f.locals@[k]).1)
}

/// Whether `r` is the state code a saved suspended state restores to: the
/// state object it resolved to, at the saved instruction, with its locals
/// restored and its latent action waiting on the restored actors.
pub open spec fn frame_resolved(
    t: Seq<(SavedObject, ObjectId, i32)>,
    targets: Seq<(usize, usize)>,
    f: SavedFrame,
    r: StateFrame,
) -> bool {
    &&& resolution_of(t, f.state@) matches Some(s) && r.state@ == s.0@
    &&& r.instruction_pointer == Some(f.instruction_pointer as usize)
    &&& restored_latent(f.latent, targets) == Some(r.latent)
    &&& r.locals@.len() == f.locals@.len()
    &&& forall|k: int|
        0 <= k < f.locals@.len() ==> (#[trigger] r.locals@[k]).0 == f.locals@[k].0 && plain_restored(
            t,
            f.locals@[k].1,
            r.locals@[k].1,
        )
}

/// Restores a saved suspended state.
pub fn restored_frame(
    frame: &SavedFrame,
    targets: &Vec<(usize, usize)>,
    table: &Vec<(SavedObject, ObjectId, i32)>,
) -> (r: Result<StateFrame, DispatchError>)
    ensures
        match r {
            Ok(f) => frame_resolvable(table@, targets@, *frame) && frame_resolved(table@, targets@, *frame, f),
            Err(e) => !frame_resolvable(table@, targets@, *frame) && e is SaveState,
        },
{
    let mut locals: Vec<(i32, Value)> = Vec::new();
    let mut i: usize = 0;
    while i < frame.locals.len()
        invariant
            0 <= i <= frame.locals@.len(),
            locals@.len() == i,
            forall|k: int|
                0 <= k < i ==> (#[trigger] locals@[k]).0 == frame.locals@[k].0 && plain_restored(
                    table@,
                    frame.locals@[k].1,
                    locals@[k].1,
                ) && plain_restorable(table@, frame.locals@[k].1),
        decreases frame.locals@.len() - i,
    {
        let value = match restored_plain_value(&frame.locals[i].1, table) {
            Ok(v) => v,
            Err(e) => {
                return Err(e);
            },
        };
        locals.push((frame.locals[i].0, value));
        i = i + 1;
    }
    let state = match find_resolution(table, &frame.state) {
        Some(j) => table[j].1.duplicate(),
        None => {
            return Err(save_error("saved state object was not resolved"));
        },
    };
    let latent = match restore_latent(frame.latent, targets) {
        Ok(l) => l,
        Err(_) => {
            return Err(save_error("saved latent action cannot be restored"));
        },
    };
    let restored = StateFrame { state, instruction_pointer: Some(frame.instruction_pointer as usize), locals, latent };
    assert forall|k: int| 0 <= k < frame.locals@.len() implies plain_restorable(table@, (#[trigger] frame.locals@[k]).1) by {
        assert(restored.locals@[k] == restored.locals@[k]);
    }
    Ok(restored)
}

/// Whether no other write than the `j`-th one goes to its actor.
pub open spec fn sole_key<X>(writes: Seq<(usize, X)>, j: int) -> bool {
    forall|j2: int| 0 <= j2 < writes.len() && j2 != j ==> (#[trigger] writes[j2]).0 != writes[j].0
}

/// The fields an actor's instance holds, none when it has no instance.
pub open spec fn base_fields(instances: Seq<(usize, InstanceState)>, actor: usize) -> Seq<(ObjectId, StoredValue)> {
    match table_get(instances, actor) {
        Some(i) => i@,
        None => Seq::empty(),
    }
}

/// Whether an instance holds, for every field, what `base` holds once
/// `fields` were set into it in order.
#[verifier::opaque]
pub open spec fn merged_into(
    inst: Seq<(ObjectId, StoredValue)>,
    base: Seq<(ObjectId, StoredValue)>,
    fields: Seq<(ObjectId, StoredValue)>,
) -> bool {
    forall|k: ObjectIdModel| #[trigger] field_get(inst, k) == merged_get(base, fields, k)
}

/// Whether one of the first `n` writes goes to `actor`.
pub open spec fn written_before<X>(writes: Seq<(usize, X)>, n: int, actor: usize) -> bool {
    exists|j: int| 0 <= j < n && (#[trigger] writes[j]).0 == actor
}

impl ScriptRuntime {
    fn write_all_fields(&mut self, writes: Vec<(usize, InstanceState)>)
        ensures
            forall|j: int|
                0 <= j < writes@.len() && sole_key(writes@, j) ==> (table_get(
                    final(self).instances@,
                    (#[trigger] writes@[j]).0,
                ) matches Some(inst) && merged_into(
                    inst@,
                    base_fields(old(self).instances@, writes@[j].0),
                    writes@[j].1@,
                )),
            forall|a: usize|
                !written_before(writes@, writes@.len() as int, a) ==> #[trigger] table_get(final(self).instances@, a)
                    == table_get(old(self).instances@, a),
            *final(self) == (ScriptRuntime { instances: final(self).instances, ..*old(self) }),
    {
        let ghost all = writes@;
        let ghost start = *self;
        let count = writes.len();
        let mut rest = writes;
        let mut done: usize = 0;
        while rest.len() > 0
            invariant
                all.len() == count,
                done + rest@.len() == all.len(),
                rest@ == all.subrange(done as int, all.len() as int),
                *self == (ScriptRuntime { instances: self.instances, ..start }),
                forall|j: int|
                    0 <= j < done && sole_key(all, j) ==> (table_get(self.instances@, (#[trigger] all[j]).0) matches Some(
                        inst,
                    ) && merged_into(inst@, base_fields(start.instances@, all[j].0), all[j].1@)),
                forall|a: usize|
                    !written_before(all, done as int, a) ==> #[trigger] table_get(self.instances@, a) == table_get(
                        start.instances@,
                        a,
                    ),
            decreases rest@.len(),
        {
            let ghost before = self.instances@;
            let (actor, fields) = rest.remove(0);
            proof {
                assert(all[done as int] == (actor, fields));
                assert(rest@ =~= all.subrange(done + 1, all.len() as int));
            }
            self.write_instance_fields(actor, fields);
            proof {
                assert forall|a: usize| !written_before(all, done + 1, a) implies #[trigger] table_get(
                    self.instances@,
                    a,
                ) == table_get(start.instances@, a) by {
                    assert(all[done as int].0 != a);
                    assert(!written_before(all, done as int, a));
                    assert(table_get(before, a) == table_get(start.instances@, a));
                }
                assert forall|j: int| 0 <= j < done + 1 && sole_key(all, j) implies (table_get(
                    self.instances@,
                    (#[trigger] all[j]).0,
                ) matches Some(inst) && merged_into(inst@, base_fields(start.instances@, all[j].0), all[j].1@)) by {
                    if j == done {
                        assert(!written_before(all, done as int, actor)) by {
                            if written_before(all, done as int, actor) {
                                let j2 = choose|j2: int| 0 <= j2 < done && (#[trigger] all[j2]).0 == actor;
                                assert(j2 != j);
                            }
                        }
                        assert(table_get(before, actor) == table_get(start.instances@, actor));
                        reveal(merged_into);
                    } else {
                        assert(all[done as int].0 != all[j].0);
                        assert(table_get(self.instances@, all[j].0) == table_get(before, all[j].0));
                    }
                }
            }
            done = done + 1;
        }
    }

    fn write_all_frames(&mut self, writes: Vec<(usize, Option<StateFrame>)>)
        ensures
            forall|j: int|
                0 <= j < writes@.len() && sole_key(writes@, j) && (#[trigger] writes@[j]).1 is Some ==> table_get(
                    final(self).state_frames@,
                    writes@[j].0,
                ) == writes@[j].1,
            forall|a: usize|
                (forall|j: int| 0 <= j < writes@.len() ==> !((#[trigger] writes@[j]).0 == a && writes@[j].1 is Some))
                    ==> #[trigger] table_get(final(self).state_frames@, a) == table_get(old(self).state_frames@, a),
            *final(self) == (ScriptRuntime { state_frames: final(self).state_frames, ..*old(self) }),
    {
        let ghost all = writes@;
        let ghost start = *self;
        let count = writes.len();
        let mut rest = writes;
        let mut done: usize = 0;
        while rest.len() > 0
            invariant
                all.len() == count,
                done + rest@.len() == all.len(),
                rest@ == all.subrange(done as int, all.len() as int),
                *self == (ScriptRuntime { state_frames: self.state_frames, ..start }),
                forall|j: int|
                    0 <= j < done && sole_key(all, j) && (#[trigger] all[j]).1 is Some ==> table_get(
                        self.state_frames@,
                        all[j].0,
                    ) == all[j].1,
                forall|a: usize|
                    (forall|j: int| 0 <= j < done ==> !((#[trigger] all[j]).0 == a && all[j].1 is Some)) ==> #[trigger] table_get(
                        self.state_frames@,
                        a,
                    ) == table_get(start.state_frames@, a),
            decreases rest@.len(),
        {
            let (actor, frame) = rest.remove(0);
            proof {
                assert(all[done as int] == (actor, frame));
                assert(rest@ =~= all.subrange(done + 1, all.len() as int));
            }
            match frame {
                Some(f) => {
                    self.write_state_frame(actor, f);
                },
                None => {},
            }
            proof {
                assert forall|a: usize|
                    (forall|j: int| 0 <= j < done + 1 ==> !((#[trigger] all[j]).0 == a && all[j].1 is Some)) implies #[trigger] table_get(
                        self.state_frames@,
                        a,
                    ) == table_get(start.state_frames@, a) by {
                    assert(!(all[done as int].0 == a && all[done as int].1 is Some));
                    assert(forall|j: int| 0 <= j < done ==> !((#[trigger] all[j]).0 == a && all[j].1 is Some));
                }
                assert forall|j: int|
                    0 <= j < done + 1 && sole_key(all, j) && (#[trigger] all[j]).1 is Some implies table_get(
                        self.state_frames@,
                        all[j].0,
                    ) == all[j].1 by {
                    if j != done {
                        assert(all[done as int].0 != all[j].0);
                    }
                }
            }
            done = done + 1;
        }
    }

    fn write_all_objects(&mut self, writes: Vec<(ObjectId, ObjectId, InstanceState)>)
        ensures
            forall|j: int|
                0 <= j < writes@.len() && (forall|j2: int|
                    j < j2 < writes@.len() ==> (#[trigger] writes@[j2]).0@ != writes@[j].0@) ==> final(self).object_instances@.contains(
                    #[trigger] writes@[j],
                ),
            *final(self) == (ScriptRuntime { object_instances: final(self).object_instances, ..*old(self) }),
    {
        let ghost all = writes@;
        let ghost start = *self;
        let count = writes.len();
        let mut rest = writes;
        let mut done: usize = 0;
        while rest.len() > 0
            invariant
                all.len() == count,
                done + rest@.len() == all.len(),
                rest@ == all.subrange(done as int, all.len() as int),
                *self == (ScriptRuntime { object_instances: self.object_instances, ..start }),
                forall|j: int|
                    0 <= j < done && (forall|j2: int| j < j2 < all.len() ==> (#[trigger] all[j2]).0@ != all[j].0@)
                        ==> self.object_instances@.contains(#[trigger] all[j]),
            decreases rest@.len(),
        {
            let ghost before = self.object_instances@;
            let (object, class, fields) = rest.remove(0);
            proof {
                assert(all[done as int] == (object, class, fields));
                assert(rest@ =~= all.subrange(done + 1, all.len() as int));
            }
            self.write_object_instance(object, class, fields);
            proof {
                assert forall|j: int|
                    0 <= j < done + 1 && (forall|j2: int| j < j2 < all.len() ==> (#[trigger] all[j2]).0@ != all[j].0@)
                        implies self.object_instances@.contains(#[trigger] all[j]) by {
                    if j == done {
                        assert(self.object_instances@[self.object_instances@.len() - 1] == all[j]);
                    } else {
                        assert(all[done as int].0@ != all[j].0@);
                        let k = choose|k: int| 0 <= k < before.len() && before[k] == all[j];
                        assert(before[k].0@ != object@);
                    }
                }
            }
            done = done + 1;
        }
    }
}

/// The object a saved object resolved to.
pub open spec fn resolved_id(t: Seq<(SavedObject, ObjectId, i32)>, o: ObjectModel) -> ObjectIdModel {
    let r = resolution_of(t, o)->0;
    r.0@
}

/// Whether an instance holds saved fields, restored with the resolved
/// objects, set over what `base` held.
pub open spec fn fields_merged(
    inst: Seq<(ObjectId, StoredValue)>,
    base: Seq<(ObjectId, StoredValue)>,
    t: Seq<(SavedObject, ObjectId, i32)>,
    saved: Seq<(SavedObject, SavedValue)>,
) -> bool {
    exists|out: Seq<(ObjectId, StoredValue)>| fields_resolved(t, saved, out) && #[trigger] merged_into(inst, base, out)
}

/// Whether a saved object is recorded with the object and class it
/// resolved to and its fields restored.
pub open spec fn object_recorded(
    records: Seq<(ObjectId, ObjectId, InstanceState)>,
    t: Seq<(SavedObject, ObjectId, i32)>,
    o: SavedObjectInstance,
) -> bool {
    exists|k: int|
        0 <= k < records.len() && (#[trigger] records[k]).0@ == resolved_id(t, o.object@) && records[k].1@
            == resolved_id(t, o.class@) && fields_resolved(t, o.instance@, records[k].2@)
}

/// Whether no later saved object resolves to the object the `q`-th one
/// resolves to.
pub open spec fn last_of_object(t: Seq<(SavedObject, ObjectId, i32)>, objects: Seq<SavedObjectInstance>, q: int) -> bool {
    forall|q2: int|
        q < q2 < objects.len() ==> resolved_id(t, (#[trigger] objects[q2]).object@) != resolved_id(t, objects[q].object@)
}

/// Whether no other saved actor restores onto the actor the `q`-th one
/// restores onto.
pub open spec fn sole_target(targets: Seq<(usize, usize)>, actors: Seq<SavedActor>, q: int) -> bool {
    forall|q2: int|
        0 <= q2 < actors.len() && q2 != q ==> table_get(targets, (#[trigger] actors[q2]).actor) != table_get(
            targets,
            actors[q].actor,
        )
}

/// Whether a plan can be finished with the resolved objects: its snapshot
/// refers to restored actors only, every saved actor has the actor it
/// restores onto, and the fields of every saved actor and object, their
/// objects and classes and every suspended state resolve.
pub open spec fn finishable(plan: RestorePlan, t: Seq<(SavedObject, ObjectId, i32)>) -> bool {
    let actors = plan.snapshot.actors@;
    let objects = plan.snapshot.object_instances@;
    &&& refs_resolve(plan.snapshot@, plan.targets@)
    &&& forall|q: int|
        0 <= q < actors.len() ==> {
            &&& table_get(plan.targets@, (#[trigger] actors[q]).actor) is Some
            &&& fields_resolvable(t, actors[q].instance@)
            &&& actors[q].frame matches Some(f) ==> frame_resolvable(t, plan.targets@, f)
        }
    &&& forall|q: int|
        0 <= q < objects.len() ==> {
            &&& resolution_of(t, (#[trigger] objects[q]).object@) is Some
            &&& resolution_of(t, objects[q].class@) is Some
            &&& fields_resolvable(t, objects[q].instance@)
        }
}

/// The runtime after a plan was finished with the resolved objects: each
/// restored actor's instance holds its saved fields set over what it held,
/// each saved suspended state is the restored actor's state code, each
/// saved object is recorded with its class and fields; other instances
/// and state code, and the rest of the runtime, are unchanged. (Where two
/// saved actors restore onto one actor, or two saved objects resolve to
/// one, the later write is over the earlier one.)
pub open spec fn finished(
    old: ScriptRuntime,
    plan: RestorePlan,
    t: Seq<(SavedObject, ObjectId, i32)>,
    new: ScriptRuntime,
) -> bool {
    let actors = plan.snapshot.actors@;
    let objects = plan.snapshot.object_instances@;
    let targets = plan.targets@;
    &&& new == (ScriptRuntime {
        instances: new.instances,
        state_frames: new.state_frames,
        object_instances: new.object_instances,
        ..old
    })
    &&& forall|q: int|
        0 <= q < actors.len() && sole_target(targets, actors, q) ==> (table_get(
            new.instances@,
            table_get(targets, (#[trigger] actors[q]).actor)->0,
        ) matches Some(inst) && fields_merged(
            inst@,
            base_fields(old.instances@, table_get(targets, actors[q].actor)->0),
            t,
            actors[q].instance@,
        ))
    &&& forall|a: usize|
        !(exists|q: int| 0 <= q < actors.len() && table_get(targets, (#[trigger] actors[q]).actor) == Some(a))
            ==> #[trigger] table_get(new.instances@, a) == table_get(old.instances@, a)
    &&& forall|q: int|
        0 <= q < actors.len() && sole_target(targets, actors, q) && (#[trigger] actors[q]).frame is Some ==> (
        table_get(new.state_frames@, table_get(targets, actors[q].actor)->0) matches Some(nf) && frame_resolved(
            t,
            targets,
            actors[q].frame->0,
            nf,
        ))
    &&& forall|a: usize|
        !(exists|q: int|
            0 <= q < actors.len() && (#[trigger] actors[q]).frame is Some && table_get(targets, actors[q].actor)
                == Some(a)) ==> #[trigger] table_get(new.state_frames@, a) == table_get(old.state_frames@, a)
    &&& forall|q: int|
        0 <= q < objects.len() && last_of_object(t, objects, q) ==> object_recorded(
            new.object_instances@,
            t,
            #[trigger] objects[q],
        )
}

/// The writes that finish a plan: for each saved actor, in order, the
/// actor it restores onto with its saved fields and suspended state
/// restored; for each saved object its resolved object, class and fields.
pub open spec fn writes_for(
    plan: RestorePlan,
    t: Seq<(SavedObject, ObjectId, i32)>,
    fw: Seq<(usize, InstanceState)>,
    frw: Seq<(usize, Option<StateFrame>)>,
    ow: Seq<(ObjectId, ObjectId, InstanceState)>,
) -> bool {
    let actors = plan.snapshot.actors@;
    let objects = plan.snapshot.object_instances@;
    let targets = plan.targets@;
    &&& fw.len() == actors.len()
    &&& frw.len() == actors.len()
    &&& forall|j: int|
        0 <= j < actors.len() ==> {
            &&& table_get(targets, (#[trigger] actors[j]).actor) == Some(fw[j].0)
            &&& frw[j].0 == fw[j].0
            &&& fields_resolved(t, actors[j].instance@, fw[j].1@)
            &&& match actors[j].frame {
                Some(f) => frw[j].1 matches Some(nf) && frame_resolved(t, targets, f, nf),
                None => frw[j].1 is None,
            }
        }
    &&& ow.len() == objects.len()
    &&& forall|j: int|
        0 <= j < objects.len() ==> {
            &&& ow[j].0@ == resolved_id(t, (#[trigger] objects[j]).object@)
            &&& ow[j].1@ == resolved_id(t, objects[j].class@)
            &&& fields_resolved(t, objects[j].instance@, ow[j].2@)
        }
}

/// The writes that finish a plan with the resolved objects, or an error
/// when the plan cannot be finished with them.
fn plan_writes(plan: &RestorePlan, table: &Vec<(SavedObject, ObjectId, i32)>) -> (r: Result<
    (Vec<(usize, InstanceState)>, Vec<(usize, Option<StateFrame>)>, Vec<(ObjectId, ObjectId, InstanceState)>),
    DispatchError,
>)
    ensures
        match r {
            Ok((fw, frw, ow)) => finishable(*plan, table@) && writes_for(*plan, table@, fw@, frw@, ow@),
            Err(e) => !finishable(*plan, table@) && e is SaveState,
        },
{
    if !snapshot_resolves(&plan.snapshot, &plan.targets) {
        return Err(save_error("snapshot refers to an absent actor"));
    }
        let actors = &plan.snapshot.actors;
    let ghost targets = plan.targets@;
    let mut field_writes: Vec<(usize, InstanceState)> = Vec::new();
    let mut frame_writes: Vec<(usize, Option<StateFrame>)> = Vec::new();
    let mut q: usize = 0;
    while q < actors.len()
        invariant
            0 <= q <= actors@.len(),
            actors@ == plan.snapshot.actors@,
            targets == plan.targets@,
            field_writes@.len() == q,
            frame_writes@.len() == q,
            forall|j: int|
                0 <= j < q ==> {
                    &&& table_get(targets, (#[trigger] actors@[j]).actor) == Some(field_writes@[j].0)
                    &&& frame_writes@[j].0 == field_writes@[j].0
                    &&& fields_resolvable(table@, actors@[j].instance@)
                    &&& fields_resolved(table@, actors@[j].instance@, field_writes@[j].1@)
                    &&& match actors@[j].frame {
                        Some(f) => frame_resolvable(table@, targets, f) && (frame_writes@[j].1 matches Some(nf)
                            && frame_resolved(table@, targets, f, nf)),
                        None => frame_writes@[j].1 is None,
                    }
                },
        decreases actors@.len() - q,
    {
        let target = match saved_actor_target(&plan.targets, actors[q].actor) {
            Ok(a) => a,
            Err(_) => {
                return Err(save_error("snapshot actor target is missing"));
            },
        };
        let fields = match restored_fields(&actors[q].instance, table) {
            Ok(f) => f,
            Err(e) => {
                return Err(e);
            },
        };
        let frame = match &actors[q].frame {
            Some(f) => match restored_frame(f, &plan.targets, table) {
                Ok(nf) => Some(nf),
                Err(e) => {
                    return Err(e);
                },
            },
            None => None,
        };
        field_writes.push((target, fields));
        frame_writes.push((target, frame));
        q = q + 1;
    }
    let objects = &plan.snapshot.object_instances;
    let mut object_writes: Vec<(ObjectId, ObjectId, InstanceState)> = Vec::new();
    let mut p: usize = 0;
    while p < objects.len()
        invariant
            0 <= p <= objects@.len(),
            objects@ == plan.snapshot.object_instances@,
            object_writes@.len() == p,
            forall|j: int|
                0 <= j < p ==> {
                    &&& resolution_of(table@, (#[trigger] objects@[j]).object@) matches Some(o) && object_writes@[j].0@
                        == o.0@
                    &&& resolution_of(table@, objects@[j].class@) matches Some(c) && object_writes@[j].1@ == c.0@
                    &&& fields_resolvable(table@, objects@[j].instance@)
                    &&& fields_resolved(table@, objects@[j].instance@, object_writes@[j].2@)
                },
        decreases objects@.len() - p,
    {
        let fields = match restored_fields(&objects[p].instance, table) {
            Ok(f) => f,
            Err(e) => {
                return Err(e);
            },
        };
        let object = match find_resolution(table, &objects[p].object) {
            Some(i) => table[i].1.duplicate(),
            None => {
                return Err(save_error("saved object was not resolved"));
            },
        };
        let class = match find_resolution(table, &objects[p].class) {
            Some(i) => table[i].1.duplicate(),
            None => {
                return Err(save_error("saved object class was not resolved"));
            },
        };
        object_writes.push((object, class, fields));
        p = p + 1;
    }
    Ok((field_writes, frame_writes, object_writes))
}

proof fn lemma_instances_finished(
    old: Seq<(usize, InstanceState)>,
    new: Seq<(usize, InstanceState)>,
    plan: RestorePlan,
    t: Seq<(SavedObject, ObjectId, i32)>,
    fw: Seq<(usize, InstanceState)>,
    frw: Seq<(usize, Option<StateFrame>)>,
    ow: Seq<(ObjectId, ObjectId, InstanceState)>,
)
    requires
        writes_for(plan, t, fw, frw, ow),
        forall|j: int|
            0 <= j < fw.len() && sole_key(fw, j) ==> (table_get(new, (#[trigger] fw[j]).0) matches Some(inst)
                && merged_into(inst@, base_fields(old, fw[j].0), fw[j].1@)),
        forall|a: usize| !written_before(fw, fw.len() as int, a) ==> #[trigger] table_get(new, a) == table_get(old, a),
    ensures
        forall|q: int|
            0 <= q < plan.snapshot.actors@.len() && sole_target(plan.targets@, plan.snapshot.actors@, q) ==> (table_get(
                new,
                table_get(plan.targets@, (#[trigger] plan.snapshot.actors@[q]).actor)->0,
            ) matches Some(inst) && fields_merged(
                inst@,
                base_fields(old, table_get(plan.targets@, plan.snapshot.actors@[q].actor)->0),
                t,
                plan.snapshot.actors@[q].instance@,
            )),
        forall|a: usize|
            !(exists|q: int|
                0 <= q < plan.snapshot.actors@.len() && table_get(plan.targets@, (#[trigger] plan.snapshot.actors@[q]).actor)
                    == Some(a)) ==> #[trigger] table_get(new, a) == table_get(old, a),
{
    let acts = plan.snapshot.actors@;
    let targets = plan.targets@;
    assert forall|q: int|
        0 <= q < acts.len() && sole_target(targets, acts, q) implies (table_get(
            new,
            table_get(targets, (#[trigger] acts[q]).actor)->0,
        ) matches Some(inst) && fields_merged(
            inst@,
            base_fields(old, table_get(targets, acts[q].actor)->0),
            t,
            acts[q].instance@,
        )) by {
        assert forall|j2: int| 0 <= j2 < fw.len() && j2 != q implies (#[trigger] fw[j2]).0 != fw[q].0 by {
            assert(table_get(targets, acts[j2].actor) == Some(fw[j2].0));
            assert(table_get(targets, acts[q].actor) == Some(fw[q].0));
        }
        assert(fw[q] == fw[q]);
        let inst = table_get(new, fw[q].0)->0;
        assert(merged_into(inst@, base_fields(old, fw[q].0), fw[q].1@));
        assert(fields_resolved(t, acts[q].instance@, fw[q].1@));
    }
    assert forall|a: usize|
        !(exists|q: int| 0 <= q < acts.len() && table_get(targets, (#[trigger] acts[q]).actor) == Some(a)) implies #[trigger] table_get(
        new,
        a,
    ) == table_get(old, a) by {
        if written_before(fw, fw.len() as int, a) {
            let j = choose|j: int| 0 <= j < fw.len() && (#[trigger] fw[j]).0 == a;
            assert(table_get(targets, acts[j].actor) == Some(fw[j].0));
            assert(0 <= j < acts.len() && table_get(targets, acts[j].actor) == Some(a));
        }
    }
}

proof fn lemma_frames_finished(
    old: Seq<(usize, StateFrame)>,
    new: Seq<(usize, StateFrame)>,
    plan: RestorePlan,
    t: Seq<(SavedObject, ObjectId, i32)>,
    fw: Seq<(usize, InstanceState)>,
    frw: Seq<(usize, Option<StateFrame>)>,
    ow: Seq<(ObjectId, ObjectId, InstanceState)>,
)
    requires
        writes_for(plan, t, fw, frw, ow),
        forall|j: int|
            0 <= j < frw.len() && sole_key(frw, j) && (#[trigger] frw[j]).1 is Some ==> table_get(new, frw[j].0)
                == frw[j].1,
        forall|a: usize|
            (forall|j: int| 0 <= j < frw.len() ==> !((#[trigger] frw[j]).0 == a && frw[j].1 is Some)) ==> #[trigger] table_get(
                new,
                a,
            ) == table_get(old, a),
    ensures
        forall|q: int|
            0 <= q < plan.snapshot.actors@.len() && sole_target(plan.targets@, plan.snapshot.actors@, q) && (
            #[trigger] plan.snapshot.actors@[q]).frame is Some ==> (table_get(
                new,
                table_get(plan.targets@, plan.snapshot.actors@[q].actor)->0,
            ) matches Some(nf) && frame_resolved(t, plan.targets@, plan.snapshot.actors@[q].frame->0, nf)),
        forall|a: usize|
            !(exists|q: int|
                0 <= q < plan.snapshot.actors@.len() && (#[trigger] plan.snapshot.actors@[q]).frame is Some
                    && table_get(plan.targets@, plan.snapshot.actors@[q].actor) == Some(a)) ==> #[trigger] table_get(
                new,
                a,
            ) == table_get(old, a),
{
    let acts = plan.snapshot.actors@;
    let targets = plan.targets@;
    assert forall|q: int|
        0 <= q < acts.len() && sole_target(targets, acts, q) && (#[trigger] acts[q]).frame is Some implies (table_get(
            new,
            table_get(targets, acts[q].actor)->0,
        ) matches Some(nf) && frame_resolved(t, targets, acts[q].frame->0, nf)) by {
        assert forall|j2: int| 0 <= j2 < frw.len() && j2 != q implies (#[trigger] frw[j2]).0 != frw[q].0 by {
            assert(table_get(targets, acts[j2].actor) == Some(fw[j2].0));
            assert(table_get(targets, acts[q].actor) == Some(fw[q].0));
        }
        assert(frw[q] == frw[q]);
    }
    assert forall|a: usize|
        !(exists|q: int|
            0 <= q < acts.len() && (#[trigger] acts[q]).frame is Some && table_get(targets, acts[q].actor) == Some(a))
            implies #[trigger] table_get(new, a) == table_get(old, a) by {
        assert forall|j: int| 0 <= j < frw.len() implies !((#[trigger] frw[j]).0 == a && frw[j].1 is Some) by {
            assert(table_get(targets, acts[j].actor) == Some(fw[j].0));
            if frw[j].0 == a && frw[j].1 is Some {
                assert(acts[j].frame is Some);
                assert(0 <= j < acts.len() && acts[j].frame is Some && table_get(targets, acts[j].actor) == Some(a));
            }
        }
    }
}

proof fn lemma_objects_finished(
    new: Seq<(ObjectId, ObjectId, InstanceState)>,
    plan: RestorePlan,
    t: Seq<(SavedObject, ObjectId, i32)>,
    fw: Seq<(usize, InstanceState)>,
    frw: Seq<(usize, Option<StateFrame>)>,
    ow: Seq<(ObjectId, ObjectId, InstanceState)>,
)
    requires
        writes_for(plan, t, fw, frw, ow),
        forall|j: int|
            0 <= j < ow.len() && (forall|j2: int| j < j2 < ow.len() ==> (#[trigger] ow[j2]).0@ != ow[j].0@)
                ==> new.contains(#[trigger] ow[j]),
    ensures
        forall|q: int|
            0 <= q < plan.snapshot.object_instances@.len() && last_of_object(t, plan.snapshot.object_instances@, q)
                ==> object_recorded(new, t, #[trigger] plan.snapshot.object_instances@[q]),
{
    let objs = plan.snapshot.object_instances@;
    assert forall|q: int| 0 <= q < objs.len() && last_of_object(t, objs, q) implies object_recorded(
        new,
        t,
        #[trigger] objs[q],
    ) by {
        assert(ow[q].0@ == resolved_id(t, objs[q].object@));
        assert forall|j2: int| q < j2 < ow.len() implies (#[trigger] ow[j2]).0@ != ow[q].0@ by {
            assert(ow[j2].0@ == resolved_id(t, objs[j2].object@));
        }
        assert(new.contains(ow[q]));
        let k = choose|k: int| 0 <= k < new.len() && new[k] == ow[q];
        assert(new[k] == ow[q]);
    }
}

impl ScriptRuntime {
    /// Finishes a restore with the objects the host resolved for the
    /// saved objects a plan names, each with its script handle: writes
    /// the saved fields of each restored actor, each saved non-actor
    /// object and each suspended state. Call it after `restore_game` has
    /// written the plan's tables. Fails, changing nothing, when the plan
    /// cannot be finished with those objects.
    pub fn finish_restore(&mut self, plan: &RestorePlan, table: &Vec<(SavedObject, ObjectId, i32)>) -> (r: Result<
        (),
        DispatchError,
    >)
        ensures
            match r {
                Ok(()) => finishable(*plan, table@) && finished(*old(self), *plan, table@, *final(self)),
                Err(e) => !finishable(*plan, table@) && e is SaveState && *final(self) == *old(self),
            },
    {
        let (field_writes, frame_writes, object_writes) = match plan_writes(plan, table) {
            Ok(w) => w,
            Err(e) => {
                return Err(e);
            },
        };
        let ghost start = *self;
        let ghost fw = field_writes@;
        let ghost frw = frame_writes@;
        let ghost ow = object_writes@;
        self.write_all_fields(field_writes);
        let ghost mid = *self;
        self.write_all_frames(frame_writes);
        let ghost mid2 = *self;
        self.write_all_objects(object_writes);
        proof {
            lemma_instances_finished(start.instances@, mid.instances@, *plan, table@, fw, frw, ow);
            lemma_frames_finished(mid.state_frames@, mid2.state_frames@, *plan, table@, fw, frw, ow);
            lemma_objects_finished(self.object_instances@, *plan, table@, fw, frw, ow);
        }
        Ok(())
    }
}

} // verus!
