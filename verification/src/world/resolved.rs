//! Writing what a restore resolved against the loaded packages: the saved
//! fields of the restored actors, the saved non-actor objects and the
//! suspended state code.
use vstd::prelude::*;
use crate::error::{DispatchError, save_error};
use crate::save::model::{ObjectModel, SavedObject, SavedValue};
use crate::value::{ObjectId, ObjectIdModel, StoredValue, Value};
use crate::world::apply::put;
use crate::world::capture::{find_entry, table_get};
use crate::world::lifecycle::lemma_table_get_remove;
use crate::world::runtime::{InstanceState, ScriptRuntime, StateFrame};

verus! {

/// The object and script handle a saved object resolved to: those of the
/// first entry for it.
pub open spec fn resolution_of(table: Seq<(SavedObject, ObjectId, i32)>, o: ObjectModel) -> Option<(ObjectId, i32)>
    decreases table.len(),
{
    if table.len() == 0 {
        None
    } else if table[0].0@ == o {
        Some((table[0].1, table[0].2))
    } else {
        resolution_of(table.subrange(1, table.len() as int), o)
    }
}

/// Whether a saved script value can be restored with the resolved objects:
/// every object it names is resolved and it names no unresolved object.
pub open spec fn plain_restorable(t: Seq<(SavedObject, ObjectId, i32)>, s: SavedValue) -> bool
    decreases s,
{
    match s {
        SavedValue::Object(Some(o)) => resolution_of(t, o@) is Some,
        SavedValue::Struct(fields) => fields_restorable(t, fields@),
        SavedValue::Array(values) => values_restorable(t, values@),
        SavedValue::UnresolvedObject(_) => false,
        _ => true,
    }
}

pub open spec fn values_restorable(t: Seq<(SavedObject, ObjectId, i32)>, values: Seq<SavedValue>) -> bool
    decreases values,
{
    values.len() == 0 || (values_restorable(t, values.subrange(0, values.len() - 1)) && plain_restorable(
        t,
        values[values.len() - 1],
    ))
}

pub open spec fn fields_restorable(t: Seq<(SavedObject, ObjectId, i32)>, fields: Seq<(String, SavedValue)>) -> bool
    decreases fields,
{
    fields.len() == 0 || (fields_restorable(t, fields.subrange(0, fields.len() - 1)) && plain_restorable(
        t,
        fields[fields.len() - 1].1,
    ))
}

/// Whether `v` is the script value a saved one restores to: the same
/// value, objects becoming the handles they resolved to, the saved object
/// itself handle -1 and no object handle 0.
pub open spec fn plain_restored(t: Seq<(SavedObject, ObjectId, i32)>, s: SavedValue, v: Value) -> bool
    decreases s,
{
    match s {
        SavedValue::Null => v == Value::Null,
        SavedValue::Byte(b) => v == Value::Byte(b),
        SavedValue::Int(i) => v == Value::Int(i),
        SavedValue::Float(f) => v == Value::Float(f),
        SavedValue::Bool(b) => v == Value::Bool(b),
        SavedValue::String(x) => v matches Value::String(y) && y@ == x@,
        SavedValue::Name(x) => v matches Value::NameText(y) && y@ == x@,
        SavedValue::NameIndex(i) => v == Value::Name(i),
        SavedValue::Object(None) => v == Value::Object(0i32),
        SavedValue::Object(Some(o)) => resolution_of(t, o@) matches Some(r) && v == Value::Object(r.1),
        SavedValue::SelfObject => v == Value::Object(-1i32),
        SavedValue::Vector(x) => v == Value::Vector(x),
        SavedValue::Rotator(x) => v == Value::Rotator(x),
        SavedValue::Struct(fields) => v matches Value::Struct(out) && fields_restored(t, fields@, out@),
        SavedValue::Array(values) => v matches Value::Array(out) && values_restored(t, values@, out@),
        SavedValue::UnresolvedObject(_) => false,
    }
}

pub open spec fn values_restored(t: Seq<(SavedObject, ObjectId, i32)>, values: Seq<SavedValue>, out: Seq<Value>) -> bool
    decreases values,
{
    values.len() == out.len() && (values.len() == 0 || (values_restored(
        t,
        values.subrange(0, values.len() - 1),
        out.subrange(0, out.len() - 1),
    ) && plain_restored(t, values[values.len() - 1], out[out.len() - 1])))
}

pub open spec fn fields_restored(
    t: Seq<(SavedObject, ObjectId, i32)>,
    fields: Seq<(String, SavedValue)>,
    out: Seq<(String, Value)>,
) -> bool
    decreases fields,
{
    fields.len() == out.len() && (fields.len() == 0 || (fields_restored(
        t,
        fields.subrange(0, fields.len() - 1),
        out.subrange(0, out.len() - 1),
    ) && out[out.len() - 1].0@ == fields[fields.len() - 1].0@ && plain_restored(
        t,
        fields[fields.len() - 1].1,
        out[out.len() - 1].1,
    )))
}

proof fn lemma_values_restorable_each(t: Seq<(SavedObject, ObjectId, i32)>, values: Seq<SavedValue>, k: int)
    requires
        values_restorable(t, values),
        0 <= k < values.len(),
    ensures
        plain_restorable(t, values[k]),
    decreases values.len(),
{
    if k < values.len() - 1 {
        let init = values.subrange(0, values.len() - 1);
        lemma_values_restorable_each(t, init, k);
        assert(init[k] == values[k]);
    }
}

proof fn lemma_fields_restorable_each(t: Seq<(SavedObject, ObjectId, i32)>, fields: Seq<(String, SavedValue)>, k: int)
    requires
        fields_restorable(t, fields),
        0 <= k < fields.len(),
    ensures
        plain_restorable(t, fields[k].1),
    decreases fields.len(),
{
    if k < fields.len() - 1 {
        let init = fields.subrange(0, fields.len() - 1);
        lemma_fields_restorable_each(t, init, k);
        assert(init[k] == fields[k]);
    }
}

/// The entry of the resolved objects for a saved object.
pub(crate) fn find_resolution(table: &Vec<(SavedObject, ObjectId, i32)>, object: &SavedObject) -> (r: Option<usize>)
    ensures
        match r {
            Some(i) => i < table@.len() && resolution_of(table@, object@) == Some((table@[i as int].1, table@[i as int].2)),
            None => resolution_of(table@, object@) is None,
        },
{
    let ghost all = table@;
    let mut i: usize = 0;
    assert(all.subrange(0, all.len() as int) =~= all);
    while i < table.len()
        invariant
            0 <= i <= all.len(),
            all == table@,
            resolution_of(all, object@) == resolution_of(all.subrange(i as int, all.len() as int), object@),
        decreases all.len() - i,
    {
        let ghost rest = all.subrange(i as int, all.len() as int);
        assert(rest[0] == all[i as int]);
        assert(rest.subrange(1, rest.len() as int) =~= all.subrange(i + 1, all.len() as int));
        if table[i].0.package == object.package && table[i].0.export_index == object.export_index {
            return Some(i);
        }
        i = i + 1;
    }
    None
}

/// Restores a saved script value with the resolved objects. Fails when it
/// names an object that was not resolved, or an unresolved object.
pub fn restored_plain_value(value: &SavedValue, table: &Vec<(SavedObject, ObjectId, i32)>) -> (r: Result<
    Value,
    DispatchError,
>)
    ensures
        match r {
            Ok(v) => plain_restorable(table@, *value) && plain_restored(table@, *value, v),
            Err(e) => !plain_restorable(table@, *value) && e is SaveState,
        },
    decreases value,
{
    match value {
        SavedValue::Null => Ok(Value::Null),
        SavedValue::Byte(b) => Ok(Value::Byte(*b)),
        SavedValue::Int(i) => Ok(Value::Int(*i)),
        SavedValue::Float(f) => Ok(Value::Float(*f)),
        SavedValue::Bool(b) => Ok(Value::Bool(*b)),
        SavedValue::String(x) => Ok(Value::String(x.clone())),
        SavedValue::Name(x) => Ok(Value::NameText(x.clone())),
        SavedValue::NameIndex(i) => Ok(Value::Name(*i)),
        SavedValue::Object(None) => Ok(Value::Object(0)),
        SavedValue::Object(Some(o)) => match find_resolution(table, o) {
            Some(i) => Ok(Value::Object(table[i].2)),
            None => Err(save_error("saved object was not resolved")),
        },
        SavedValue::SelfObject => Ok(Value::Object(-1)),
        SavedValue::Vector(x) => Ok(Value::Vector(*x)),
        SavedValue::Rotator(x) => Ok(Value::Rotator(*x)),
        SavedValue::Struct(fields) => {
            let mut out: Vec<(String, Value)> = Vec::new();
            let mut i: usize = 0;
            assert forall|k: int| 0 <= k < fields@.len() implies decreases_to!(*value => fields@[k].1) by {
                assert(decreases_to!(*value => fields@[k].1));
            }
            while i < fields.len()
                invariant
                    0 <= i <= fields@.len(),
                    *value == SavedValue::Struct(*fields),
                    forall|k: int| 0 <= k < fields@.len() ==> decreases_to!(*value => fields@[k].1),
                    fields_restorable(table@, fields@.subrange(0, i as int)),
                    fields_restored(table@, fields@.subrange(0, i as int), out@),
                decreases fields@.len() - i,
            {
                assert(decreases_to!(*value => fields@[i as int].1));
                let converted = match restored_plain_value(&fields[i].1, table) {
                    Ok(v) => v,
                    Err(e) => {
                        proof {
                            if fields_restorable(table@, fields@) {
                                lemma_fields_restorable_each(table@, fields@, i as int);
                            }
                        }
                        return Err(e);
                    },
                };
                let name = fields[i].0.clone();
                let ghost before = out@;
                out.push((name, converted));
                proof {
                    let next = fields@.subrange(0, i + 1);
                    assert(next.subrange(0, i as int) =~= fields@.subrange(0, i as int));
                    assert(out@.subrange(0, i as int) =~= before);
                }
                i = i + 1;
            }
            assert(fields@.subrange(0, fields@.len() as int) =~= fields@);
            assert(fields_restored(table@, fields@, out@));
            Ok(Value::Struct(out))
        },
        SavedValue::Array(values) => {
            let mut out: Vec<Value> = Vec::new();
            let mut i: usize = 0;
            assert forall|k: int| 0 <= k < values@.len() implies decreases_to!(*value => values@[k]) by {
                assert(decreases_to!(*value => values@[k]));
            }
            while i < values.len()
                invariant
                    0 <= i <= values@.len(),
                    *value == SavedValue::Array(*values),
                    forall|k: int| 0 <= k < values@.len() ==> decreases_to!(*value => values@[k]),
                    values_restorable(table@, values@.subrange(0, i as int)),
                    values_restored(table@, values@.subrange(0, i as int), out@),
                decreases values@.len() - i,
            {
                assert(decreases_to!(*value => values@[i as int]));
                let converted = match restored_plain_value(&values[i], table) {
                    Ok(v) => v,
                    Err(e) => {
                        proof {
                            if values_restorable(table@, values@) {
                                lemma_values_restorable_each(table@, values@, i as int);
                            }
                        }
                        return Err(e);
                    },
                };
                let ghost before = out@;
                out.push(converted);
                proof {
                    let next = values@.subrange(0, i + 1);
                    assert(next.subrange(0, i as int) =~= values@.subrange(0, i as int));
                    assert(out@.subrange(0, i as int) =~= before);
                }
                i = i + 1;
            }
            assert(values@.subrange(0, values@.len() as int) =~= values@);
            assert(values_restored(table@, values@, out@));
            Ok(Value::Array(out))
        },
        SavedValue::UnresolvedObject(_) => Err(save_error("frame contains an unresolved object")),
    }
}

/// The value an instance holds for a field: that of its first entry for an
/// object with the same identity.
pub open spec fn field_get(fields: Seq<(ObjectId, StoredValue)>, key: ObjectIdModel) -> Option<StoredValue>
    decreases fields.len(),
{
    if fields.len() == 0 {
        None
    } else if fields[0].0@ == key {
        Some(fields[0].1)
    } else {
        field_get(fields.subrange(1, fields.len() as int), key)
    }
}

/// What an instance holds for a field once `written` was set into it in
/// order: the last written value for the field, or what `base` held.
pub open spec fn merged_get(
    base: Seq<(ObjectId, StoredValue)>,
    written: Seq<(ObjectId, StoredValue)>,
    key: ObjectIdModel,
) -> Option<StoredValue>
    decreases written.len(),
{
    if written.len() == 0 {
        field_get(base, key)
    } else if written.last().0@ == key {
        Some(written.last().1)
    } else {
        merged_get(base, written.drop_last(), key)
    }
}

proof fn lemma_field_get_update(fields: Seq<(ObjectId, StoredValue)>, i: int, entry: (ObjectId, StoredValue))
    requires
        0 <= i < fields.len(),
        fields[i].0@ == entry.0@,
        forall|j: int| 0 <= j < i ==> fields[j].0@ != entry.0@,
    ensures
        forall|k: ObjectIdModel|
            #[trigger] field_get(fields.update(i, entry), k) == if k == entry.0@ {
                Some(entry.1)
            } else {
                field_get(fields, k)
            },
    decreases fields.len(),
{
    let t = fields.update(i, entry);
    let rest = fields.subrange(1, fields.len() as int);
    if i > 0 {
        lemma_field_get_update(rest, i - 1, entry);
        assert(t.subrange(1, t.len() as int) =~= rest.update(i - 1, entry));
    } else {
        assert(t.subrange(1, t.len() as int) =~= rest);
    }
    assert forall|k: ObjectIdModel|
        #[trigger] field_get(t, k) == if k == entry.0@ {
            Some(entry.1)
        } else {
            field_get(fields, k)
        } by {
        if i == 0 {
            assert(t[0] == entry);
        } else {
            assert(t[0] == fields[0]);
            assert(field_get(t.subrange(1, t.len() as int), k) == field_get(rest.update(i - 1, entry), k));
        }
    }
}

proof fn lemma_field_get_push(fields: Seq<(ObjectId, StoredValue)>, entry: (ObjectId, StoredValue))
    requires
        forall|j: int| 0 <= j < fields.len() ==> fields[j].0@ != entry.0@,
    ensures
        forall|k: ObjectIdModel|
            #[trigger] field_get(fields.push(entry), k) == if k == entry.0@ {
                Some(entry.1)
            } else {
                field_get(fields, k)
            },
    decreases fields.len(),
{
    let t = fields.push(entry);
    if fields.len() > 0 {
        let rest = fields.subrange(1, fields.len() as int);
        lemma_field_get_push(rest, entry);
        assert(t.subrange(1, t.len() as int) =~= rest.push(entry));
        assert forall|k: ObjectIdModel|
            #[trigger] field_get(t, k) == if k == entry.0@ {
                Some(entry.1)
            } else {
                field_get(fields, k)
            } by {
            assert(t[0] == fields[0]);
            assert(field_get(t.subrange(1, t.len() as int), k) == field_get(rest.push(entry), k));
        }
    } else {
        assert(t.subrange(1, t.len() as int) =~= Seq::<(ObjectId, StoredValue)>::empty());
        assert forall|k: ObjectIdModel|
            #[trigger] field_get(t, k) == if k == entry.0@ {
                Some(entry.1)
            } else {
                field_get(fields, k)
            } by {
            assert(t[0] == entry);
            assert(field_get(Seq::<(ObjectId, StoredValue)>::empty(), k) == None::<StoredValue>);
        }
    }
}

/// Sets a field of an instance: the value replaces the field's entry, or is
/// added after the others.
pub fn set_field(fields: &mut InstanceState, field: ObjectId, value: StoredValue)
    ensures
        forall|k: ObjectIdModel|
            #[trigger] field_get(final(fields)@, k) == if k == field@ {
                Some(value)
            } else {
                field_get(old(fields)@, k)
            },
{
    let ghost before = fields@;
    let mut i: usize = 0;
    while i < fields.len()
        invariant
            0 <= i <= fields@.len(),
            fields@ == before,
            before == old(fields)@,
            forall|j: int| 0 <= j < i ==> fields@[j].0@ != field@,
        decreases fields@.len() - i,
    {
        if fields[i].0.same(&field) {
            proof {
                lemma_field_get_update(before, i as int, (field, value));
            }
            let ghost entry = (field, value);
            fields.set(i, (field, value));
            assert(fields@ == before.update(i as int, entry));
            assert forall|k: ObjectIdModel|
                #[trigger] field_get(fields@, k) == if k == entry.0@ {
                    Some(entry.1)
                } else {
                    field_get(before, k)
                } by {
                assert(field_get(fields@, k) == field_get(before.update(i as int, entry), k));
            }
            return;
        }
        i = i + 1;
    }
    proof {
        lemma_field_get_push(before, (field, value));
    }
    fields.push((field, value));
    assert(fields@ == before.push((field, value)));
}

impl ScriptRuntime {
    /// Writes the saved fields of an actor, resolved against the loaded
    /// packages, into its instance: each field set in order over the values
    /// it held. The actor gets an instance when it had none.
    pub fn write_instance_fields(&mut self, actor: usize, fields: InstanceState)
        ensures
            table_get(final(self).instances@, actor) matches Some(instance) && forall|k: ObjectIdModel|
                #[trigger] field_get(instance@, k) == merged_get(
                    match table_get(old(self).instances@, actor) {
                        Some(i) => i@,
                        None => Seq::empty(),
                    },
                    fields@,
                    k,
                ),
            forall|a: usize| a != actor ==> #[trigger] table_get(final(self).instances@, a) == table_get(old(self).instances@, a),
            *final(self) == (ScriptRuntime { instances: final(self).instances, ..*old(self) }),
    {
        let ghost given = fields@;
        let fields_len = fields.len();
        let ghost start = self.instances@;
        let mut instance: InstanceState = match find_entry(&self.instances, actor) {
            Some(i) => {
                let ghost current = self.instances@;
                let entry = self.instances.remove(i);
                proof {
                    assert forall|a: usize| a != actor implies #[trigger] table_get(self.instances@, a) == table_get(
                        current,
                        a,
                    ) by {
                        lemma_table_get_remove(current, i as int, a);
                    }
                }
                entry.1
            },
            None => Vec::new(),
        };
        let ghost base = instance@;
        assert(base == match table_get(start, actor) {
            Some(i) => i@,
            None => Seq::<(ObjectId, StoredValue)>::empty(),
        });
        let mut rest = fields;
        let mut done: usize = 0;
        while rest.len() > 0
            invariant
                done + rest@.len() == given.len(),
                given.len() == fields_len,
                rest@ == given.subrange(done as int, given.len() as int),
                forall|k: ObjectIdModel| #[trigger] field_get(instance@, k) == merged_get(
                    base,
                    given.subrange(0, done as int),
                    k,
                ),
            decreases rest@.len(),
        {
            let ghost before = instance@;
            let (field, value) = rest.remove(0);
            proof {
                assert(given[done as int] == (field, value));
            }
            set_field(&mut instance, field, value);
            proof {
                let w = given.subrange(0, done + 1);
                assert(w.drop_last() =~= given.subrange(0, done as int));
                assert(w.last() == given[done as int]);
                assert forall|k: ObjectIdModel| #[trigger] field_get(instance@, k) == merged_get(base, w, k) by {}
                assert(rest@ =~= given.subrange(done + 1, given.len() as int));
            }
            done = done + 1;
        }
        assert(given.subrange(0, done as int) =~= given);
        let ghost removed = self.instances@;
        put(&mut self.instances, actor, instance);
    }

    /// Sets an actor's suspended state code.
    pub fn write_state_frame(&mut self, actor: usize, frame: StateFrame)
        ensures
            forall|a: usize|
                #[trigger] table_get(final(self).state_frames@, a) == if a == actor {
                    Some(frame)
                } else {
                    table_get(old(self).state_frames@, a)
                },
            *final(self) == (ScriptRuntime { state_frames: final(self).state_frames, ..*old(self) }),
    {
        put(&mut self.state_frames, actor, frame);
    }

    /// Records a non-actor object with its class and fields, in place of
    /// any record of an object with the same identity.
    pub fn write_object_instance(&mut self, object: ObjectId, class: ObjectId, fields: InstanceState)
        ensures
            final(self).object_instances@.len() >= 1,
            final(self).object_instances@.last() == (object, class, fields),
            forall|k: int|
                0 <= k < final(self).object_instances@.len() - 1 ==> (#[trigger] final(self).object_instances@[k]).0@
                    != object@ && old(self).object_instances@.contains(final(self).object_instances@[k]),
            forall|k: int|
                0 <= k < old(self).object_instances@.len() && (#[trigger] old(self).object_instances@[k]).0@
                    != object@ ==> final(self).object_instances@.contains(old(self).object_instances@[k]),
            *final(self) == (ScriptRuntime { object_instances: final(self).object_instances, ..*old(self) }),
    {
        let ghost before = self.object_instances@;
        let ghost start = *self;
        let mut i: usize = 0;
        while i < self.object_instances.len()
            invariant
                0 <= i <= self.object_instances@.len(),
                *self == (ScriptRuntime { object_instances: self.object_instances, ..start }),
                forall|k: int| 0 <= k < i ==> (#[trigger] self.object_instances@[k]).0@ != object@,
                forall|k: int|
                    0 <= k < self.object_instances@.len() ==> before.contains(#[trigger] self.object_instances@[k]),
                forall|k: int|
                    0 <= k < before.len() && (#[trigger] before[k]).0@ != object@ ==> self.object_instances@.contains(
                        before[k],
                    ),
            decreases self.object_instances@.len() - i,
        {
            if self.object_instances[i].0.same(&object) {
                let ghost current = self.object_instances@;
                self.object_instances.remove(i);
                proof {
                    assert forall|k: int|
                        0 <= k < self.object_instances@.len() implies before.contains(
                            #[trigger] self.object_instances@[k],
                        ) by {
                        if k < i {
                            assert(self.object_instances@[k] == current[k]);
                        } else {
                            assert(self.object_instances@[k] == current[k + 1]);
                        }
                    }
                    assert forall|k: int|
                        0 <= k < before.len() && (#[trigger] before[k]).0@ != object@ implies self.object_instances@.contains(
                            before[k],
                        ) by {
                        let j = choose|j: int| 0 <= j < current.len() && current[j] == before[k];
                        if j < i {
                            assert(self.object_instances@[j] == before[k]);
                        } else {
                            assert(j != i);
                            assert(self.object_instances@[j - 1] == before[k]);
                        }
                    }
                }
            } else {
                i = i + 1;
            }
        }
        let ghost kept = self.object_instances@;
        self.object_instances.push((object, class, fields));
        proof {
            assert forall|k: int|
                0 <= k < before.len() && (#[trigger] before[k]).0@ != object@ implies self.object_instances@.contains(
                    before[k],
                ) by {
                let j = choose|j: int| 0 <= j < kept.len() && kept[j] == before[k];
                assert(self.object_instances@[j] == before[k]);
            }
            assert forall|k: int| 0 <= k < self.object_instances@.len() - 1 implies (
            #[trigger] self.object_instances@[k]).0@ != object@ && before.contains(self.object_instances@[k]) by {
                assert(self.object_instances@[k] == kept[k]);
            }
        }
    }
}

} // verus!
