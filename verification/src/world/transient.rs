//! Dropping what a snapshot says about actors spawned at run time, which a
//! restore rebuilds rather than reads.
use vstd::prelude::*;
use crate::save::layout::latent_actor;
use crate::save::model::{
    ActorModel, CommandModel, FrameModel, InstanceModel, ObjectModel, RuntimeModel, SavedActor,
    SavedAnimationChannel, SavedAnimationCommand, SavedFrame, SavedLatent, SavedObject,
    SavedObjectInstance, SavedRuntime, SavedValue, ValueModel, actors_model, commands_model,
    fields_model, instances_model, lemma_fields_model_index, lemma_values_model_index, locals_model,
    pairs_model, value_model, values_model,
};
use crate::world::capture::lists_actor;
use crate::text::str_equal;
use crate::world::convert::runtime_package;

verus! {

/// Whether a snapshot value refers to a run-time actor.
pub open spec fn saved_ref(v: ValueModel) -> bool
    decreases v,
{
    match v {
        ValueModel::Object(Some(o)) => o.package == runtime_package(),
        ValueModel::Struct(fields) => saved_fields_ref(fields),
        ValueModel::Array(values) => saved_values_ref(values),
        _ => false,
    }
}

pub open spec fn saved_values_ref(values: Seq<ValueModel>) -> bool
    decreases values,
{
    values.len() > 0 && (saved_ref(values[0]) || saved_values_ref(
        values.subrange(1, values.len() as int),
    ))
}

pub open spec fn saved_fields_ref(fields: Seq<(Seq<char>, ValueModel)>) -> bool
    decreases fields,
{
    fields.len() > 0 && (saved_ref(fields[0].1) || saved_fields_ref(
        fields.subrange(1, fields.len() as int),
    ))
}

/// Whether a snapshot object is a run-time actor.
pub fn is_runtime_saved_object(object: &SavedObject) -> (r: bool)
    ensures
        r == (object@.package == runtime_package()),
{
    str_equal(object.package.as_str(), "<runtime>")
}

/// Whether a snapshot value refers to a run-time actor.
pub fn saved_value_has_runtime_reference(value: &SavedValue) -> (r: bool)
    ensures
        r == saved_ref(value_model(*value)),
    decreases value,
{
    match value {
        SavedValue::Object(Some(object)) => is_runtime_saved_object(object),
        SavedValue::Struct(fields) => {
            let ghost m = fields_model(fields@);
            proof {
                lemma_fields_model_index(fields@);
            }
            let mut i: usize = 0;
            assert(m.subrange(0, m.len() as int) =~= m);
            while i < fields.len()
                invariant
                    0 <= i <= fields@.len(),
                    m == fields_model(fields@),
                    m.len() == fields@.len(),
                    forall|k: int| 0 <= k < fields@.len() ==> #[trigger] m[k] == (
                        fields@[k].0@,
                        value_model(fields@[k].1),
                    ),
                    *value == SavedValue::Struct(*fields),
                    saved_fields_ref(m) == saved_fields_ref(m.subrange(i as int, m.len() as int)),
                decreases fields@.len() - i,
            {
                let ghost rest = m.subrange(i as int, m.len() as int);
                assert(rest.subrange(1, rest.len() as int) =~= m.subrange(i + 1, m.len() as int));
                assert(rest[0] == m[i as int]);
                assert(decreases_to!(*value => fields@[i as int].1));
                if saved_value_has_runtime_reference(&fields[i].1) {
                    return true;
                }
                i = i + 1;
            }
            false
        },
        SavedValue::Array(values) => {
            let ghost m = values_model(values@);
            proof {
                lemma_values_model_index(values@);
            }
            let mut i: usize = 0;
            assert(m.subrange(0, m.len() as int) =~= m);
            while i < values.len()
                invariant
                    0 <= i <= values@.len(),
                    m == values_model(values@),
                    m.len() == values@.len(),
                    forall|k: int| 0 <= k < values@.len() ==> #[trigger] m[k] == value_model(values@[k]),
                    *value == SavedValue::Array(*values),
                    saved_values_ref(m) == saved_values_ref(m.subrange(i as int, m.len() as int)),
                decreases values@.len() - i,
            {
                let ghost rest = m.subrange(i as int, m.len() as int);
                assert(rest.subrange(1, rest.len() as int) =~= m.subrange(i + 1, m.len() as int));
                assert(rest[0] == m[i as int]);
                assert(decreases_to!(*value => values@[i as int]));
                if saved_value_has_runtime_reference(&values[i]) {
                    return true;
                }
                i = i + 1;
            }
            false
        },
        _ => false,
    }
}

/// A snapshot value with every reference to a run-time actor replaced by no
/// object.
pub open spec fn without_runtime_refs(v: ValueModel) -> ValueModel
    decreases v,
{
    match v {
        ValueModel::Object(Some(o)) => if o.package == runtime_package() {
            ValueModel::Object(None)
        } else {
            v
        },
        ValueModel::Struct(fields) => ValueModel::Struct(fields_without_refs(fields)),
        ValueModel::Array(values) => ValueModel::Array(values_without_refs(values)),
        _ => v,
    }
}

pub open spec fn values_without_refs(values: Seq<ValueModel>) -> Seq<ValueModel>
    decreases values,
{
    if values.len() == 0 {
        values
    } else {
        seq![without_runtime_refs(values[0])] + values_without_refs(
            values.subrange(1, values.len() as int),
        )
    }
}

pub open spec fn fields_without_refs(fields: Seq<(Seq<char>, ValueModel)>) -> Seq<(Seq<char>, ValueModel)>
    decreases fields,
{
    if fields.len() == 0 {
        fields
    } else {
        seq![(fields[0].0, without_runtime_refs(fields[0].1))] + fields_without_refs(
            fields.subrange(1, fields.len() as int),
        )
    }
}

pub proof fn lemma_values_without_refs(values: Seq<ValueModel>)
    ensures
        values_without_refs(values).len() == values.len(),
        forall|i: int|
            0 <= i < values.len() ==> #[trigger] values_without_refs(values)[i]
                == without_runtime_refs(values[i]),
    decreases values.len(),
{
    if values.len() > 0 {
        let tail = values.subrange(1, values.len() as int);
        lemma_values_without_refs(tail);
        assert forall|i: int| 0 <= i < values.len() implies #[trigger] values_without_refs(values)[i]
            == without_runtime_refs(values[i]) by {
            if i > 0 {
                assert(tail[i - 1] == values[i]);
            }
        }
    }
}

pub proof fn lemma_fields_without_refs(fields: Seq<(Seq<char>, ValueModel)>)
    ensures
        fields_without_refs(fields).len() == fields.len(),
        forall|i: int|
            0 <= i < fields.len() ==> #[trigger] fields_without_refs(fields)[i] == (
                fields[i].0,
                without_runtime_refs(fields[i].1),
            ),
    decreases fields.len(),
{
    if fields.len() > 0 {
        let tail = fields.subrange(1, fields.len() as int);
        lemma_fields_without_refs(tail);
        assert forall|i: int| 0 <= i < fields.len() implies #[trigger] fields_without_refs(fields)[i]
            == (fields[i].0, without_runtime_refs(fields[i].1)) by {
            if i > 0 {
                assert(tail[i - 1] == fields[i]);
            }
        }
    }
}

/// The value with every reference to a run-time actor replaced by no
/// object.
pub fn without_runtime_references(value: &SavedValue) -> (r: SavedValue)
    ensures
        value_model(r) == without_runtime_refs(value_model(*value)),
    decreases value,
{
    match value {
        SavedValue::Null => SavedValue::Null,
        SavedValue::Byte(b) => SavedValue::Byte(*b),
        SavedValue::Int(i) => SavedValue::Int(*i),
        SavedValue::Float(f) => SavedValue::Float(*f),
        SavedValue::Bool(b) => SavedValue::Bool(*b),
        SavedValue::String(s) => SavedValue::String(s.clone()),
        SavedValue::Name(s) => SavedValue::Name(s.clone()),
        SavedValue::NameIndex(i) => SavedValue::NameIndex(*i),
        SavedValue::Object(None) => SavedValue::Object(None),
        SavedValue::Object(Some(object)) => {
            if is_runtime_saved_object(object) {
                SavedValue::Object(None)
            } else {
                SavedValue::Object(
                    Some(SavedObject { package: object.package.clone(), export_index: object.export_index }),
                )
            }
        },
        SavedValue::SelfObject => SavedValue::SelfObject,
        SavedValue::Vector(v) => SavedValue::Vector(*v),
        SavedValue::Rotator(r) => SavedValue::Rotator(*r),
        SavedValue::UnresolvedObject(s) => SavedValue::UnresolvedObject(s.clone()),
        SavedValue::Struct(fields) => {
            let ghost all = fields@;
            proof {
                lemma_fields_model_index(all);
                lemma_fields_without_refs(fields_model(all));
            }
            let mut out: Vec<(String, SavedValue)> = Vec::new();
            let mut i: usize = 0;
            while i < fields.len()
                invariant
                    0 <= i <= all.len(),
                    all == fields@,
                    *value == SavedValue::Struct(*fields),
                    out@.len() == i,
                    fields_model(all).len() == all.len(),
                    fields_without_refs(fields_model(all)).len() == all.len(),
                    forall|k: int| 0 <= k < all.len() ==> #[trigger] fields_model(all)[k] == (
                        all[k].0@,
                        value_model(all[k].1),
                    ),
                    forall|k: int|
                        0 <= k < all.len() ==> #[trigger] fields_without_refs(fields_model(all))[k]
                            == (fields_model(all)[k].0, without_runtime_refs(fields_model(all)[k].1)),
                    forall|k: int|
                        0 <= k < out@.len() ==> (out@[k].0@, value_model(out@[k].1))
                            == #[trigger] fields_without_refs(fields_model(all))[k],
                decreases all.len() - i,
            {
                assert(decreases_to!(*value => (*value)->Struct_0));
                assert(decreases_to!(*value => fields@[i as int].1));
                let cleaned = without_runtime_references(&fields[i].1);
                out.push((fields[i].0.clone(), cleaned));
                i = i + 1;
            }
            proof {
                lemma_fields_model_index(out@);
                assert(fields_model(out@) =~= fields_without_refs(fields_model(all)));
            }
            SavedValue::Struct(out)
        },
        SavedValue::Array(values) => {
            let ghost all = values@;
            proof {
                lemma_values_model_index(all);
                lemma_values_without_refs(values_model(all));
            }
            let mut out: Vec<SavedValue> = Vec::new();
            let mut i: usize = 0;
            while i < values.len()
                invariant
                    0 <= i <= all.len(),
                    all == values@,
                    *value == SavedValue::Array(*values),
                    out@.len() == i,
                    values_model(all).len() == all.len(),
                    values_without_refs(values_model(all)).len() == all.len(),
                    forall|k: int| 0 <= k < all.len() ==> #[trigger] values_model(all)[k] == value_model(
                        all[k],
                    ),
                    forall|k: int|
                        0 <= k < all.len() ==> #[trigger] values_without_refs(values_model(all))[k]
                            == without_runtime_refs(values_model(all)[k]),
                    forall|k: int|
                        0 <= k < out@.len() ==> value_model(out@[k])
                            == #[trigger] values_without_refs(values_model(all))[k],
                decreases all.len() - i,
            {
                assert(decreases_to!(*value => (*value)->Array_0));
                assert(decreases_to!(*value => values@[i as int]));
                let cleaned = without_runtime_references(&values[i]);
                out.push(cleaned);
                i = i + 1;
            }
            proof {
                lemma_values_model_index(out@);
                assert(values_model(out@) =~= values_without_refs(values_model(all)));
            }
            SavedValue::Array(out)
        },
    }
}

/// Replaces every reference to a run-time actor in the value by no object.
pub fn discard_transient_reference(value: &mut SavedValue)
    ensures
        value_model(*final(value)) == without_runtime_refs(value_model(*old(value))),
{
    let cleaned = without_runtime_references(value);
    *value = cleaned;
}

/// The actor a latent action waits on, if any.
pub fn saved_latent_actor(latent: SavedLatent) -> (r: Option<usize>)
    ensures
        r == latent_actor(latent),
{
    match latent {
        SavedLatent::FinishAnimation(actor) => Some(actor),
        SavedLatent::FinishInterpolation(actor) => Some(actor),
        SavedLatent::MoveTo(actor) => Some(actor),
        SavedLatent::MoveToward(actor) => Some(actor),
        SavedLatent::TurnTo(actor) => Some(actor),
        SavedLatent::TurnToward(actor) => Some(actor),
        SavedLatent::Continue => None,
        SavedLatent::Stop => None,
        SavedLatent::Sleep(_) => None,
    }
}

/// Whether the snapshot lists `actor` as spawned at run time.
pub open spec fn is_transient_in(actors: Seq<ActorModel>, actor: usize) -> bool {
    exists|i: int|
        0 <= i < actors.len() && #[trigger] actors[i].actor == actor && actors[i].object.package
            == runtime_package()
}

/// Whether the snapshot lists any actor spawned at run time.
pub open spec fn has_transient(actors: Seq<ActorModel>) -> bool {
    exists|i: int| 0 <= i < actors.len() && #[trigger] actors[i].object.package == runtime_package()
}

/// Instance fields without those that refer to a run-time actor.
pub open spec fn pairs_without_refs(pairs: Seq<(ObjectModel, ValueModel)>) -> Seq<(ObjectModel, ValueModel)> {
    pairs.filter(pair_kept())
}

/// A frame with references to run-time actors dropped from its locals, and
/// a wait on a run-time actor turned into a plain continuation.
pub open spec fn frame_without_refs(f: FrameModel, actors: Seq<ActorModel>) -> FrameModel {
    FrameModel {
        locals: f.locals.map_values(|l: (i32, ValueModel)| (l.0, without_runtime_refs(l.1))),
        latent: match latent_actor(f.latent) {
            Some(a) => if is_transient_in(actors, a) {
                SavedLatent::Continue
            } else {
                f.latent
            },
            None => f.latent,
        },
        ..f
    }
}

/// An authored actor without references to run-time actors.
pub open spec fn actor_without_refs(a: ActorModel, actors: Seq<ActorModel>) -> ActorModel {
    ActorModel {
        instance: pairs_without_refs(a.instance),
        frame: match a.frame {
            Some(f) => Some(frame_without_refs(f, actors)),
            None => None,
        },
        ..a
    }
}

/// Keeps an index that is not a run-time actor of `t`.
pub open spec fn index_kept(t: Seq<ActorModel>) -> spec_fn(usize) -> bool {
    |a: usize| !is_transient_in(t, a)
}

/// Keeps an actor that is not a run-time actor of `t`.
pub open spec fn actor_kept_by(t: Seq<ActorModel>) -> spec_fn(ActorModel) -> bool {
    |a: ActorModel| !is_transient_in(t, a.actor)
}

/// Drops references to run-time actors of `t` from an actor.
pub open spec fn actor_cleaned_by(t: Seq<ActorModel>) -> spec_fn(ActorModel) -> ActorModel {
    |a: ActorModel| actor_without_refs(a, t)
}

/// Keeps an animation of an actor that is not a run-time actor of `t`.
pub open spec fn command_kept_by(t: Seq<ActorModel>) -> spec_fn(CommandModel) -> bool {
    |c: CommandModel| !is_transient_in(t, c.actor)
}

/// Keeps a channel between actors that are not run-time actors of `t`.
pub open spec fn channel_kept_by(t: Seq<ActorModel>) -> spec_fn(SavedAnimationChannel) -> bool {
    |c: SavedAnimationChannel| !is_transient_in(t, c.actor) && !is_transient_in(t, c.target)
}

/// Drops the fields that refer to run-time actors from an object.
pub open spec fn instance_cleaned() -> spec_fn(InstanceModel) -> InstanceModel {
    |i: InstanceModel| InstanceModel { instance: pairs_without_refs(i.instance), ..i }
}

/// Keeps a field whose value refers to no run-time actor.
pub open spec fn pair_kept() -> spec_fn((ObjectModel, ValueModel)) -> bool {
    |p: (ObjectModel, ValueModel)| !saved_ref(p.1)
}

/// A snapshot without the actors spawned at run time and without anything
/// that refers to them; unchanged when it lists no such actor.
pub open spec fn discarded(m: RuntimeModel) -> RuntimeModel {
    if !has_transient(m.actors) {
        m
    } else {
        let t = m.actors;
        RuntimeModel {
            actors: m.actors.filter(actor_kept_by(t)).map_values(actor_cleaned_by(t)),
            object_instances: m.object_instances.map_values(instance_cleaned()),
            animation_commands: m.animation_commands.filter(command_kept_by(t)),
            animation_channels: m.animation_channels.filter(channel_kept_by(t)),
            animating: m.animating.filter(index_kept(t)),
            player_probe_touching: m.player_probe_touching.filter(index_kept(t)),
            ..m
        }
    }
}

proof fn lemma_filter_empty<A>(s: Seq<A>, p: spec_fn(A) -> bool)
    requires
        s.len() == 0,
    ensures
        s.filter(p) == s,
{
    reveal(Seq::filter);
}

proof fn lemma_filter_step<A>(s: Seq<A>, p: spec_fn(A) -> bool, i: int)
    requires
        0 <= i < s.len(),
    ensures
        s.take(i + 1).filter(p) == (if p(s[i]) {
            s.take(i).filter(p).push(s[i])
        } else {
            s.take(i).filter(p)
        }),
{
    reveal(Seq::filter);
    assert(s.take(i + 1).drop_last() =~= s.take(i));
    assert(s.take(i + 1).last() == s[i]);
}

/// Keeps the instance fields that refer to no run-time actor.
fn pairs_kept(pairs: Vec<(SavedObject, SavedValue)>) -> (r: Vec<(SavedObject, SavedValue)>)
    ensures
        pairs_model(r@) == pairs_without_refs(pairs_model(pairs@)),
{
    let ghost all = pairs_model(pairs@);
    let ghost n = pairs@.len();
    let mut rest = pairs;
    let mut out: Vec<(SavedObject, SavedValue)> = Vec::new();
    assert(all.take(0) =~= Seq::<(ObjectModel, ValueModel)>::empty());
    proof {
        lemma_filter_empty(all.take(0), pair_kept());
    }
    while rest.len() > 0
        invariant
            rest@.len() <= n,
            all.len() == n,
            pairs_model(rest@) == all.skip(n - rest@.len()),
            pairs_model(out@) == pairs_without_refs(all.take(n - rest@.len())),
        decreases rest@.len(),
    {
        let ghost k = n - rest@.len();
        let ghost before = rest@;
        let item = rest.remove(0);
        assert(pairs_model(before)[0] == all.skip(k)[0]);
        assert(all.skip(k)[0] == all[k]);
        assert(pairs_model(rest@) =~= pairs_model(before).skip(1));
        assert(all.skip(k).skip(1) =~= all.skip(k + 1));
        proof {
            lemma_filter_step(all, pair_kept(), k);
        }
        if !saved_value_has_runtime_reference(&item.1) {
            assert(pairs_model(out@.push(item)) =~= pairs_model(out@).push(all[k]));
            out.push(item);
        }
    }
    assert(all.take(n as int) =~= all);
    out
}

/// The snapshot's actors that were spawned at run time.
fn transient_list(actors: &Vec<SavedActor>) -> (r: Vec<usize>)
    ensures
        forall|a: usize| r@.contains(a) <==> is_transient_in(actors_model(actors@), a),
        r@.len() == 0 <==> !has_transient(actors_model(actors@)),
{
    let ghost m = actors_model(actors@);
    let mut out: Vec<usize> = Vec::new();
    let mut i: usize = 0;
    while i < actors.len()
        invariant
            0 <= i <= actors@.len(),
            m == actors_model(actors@),
            m.len() == actors@.len(),
            forall|a: usize|
                out@.contains(a) <==> exists|j: int|
                    0 <= j < i && #[trigger] m[j].actor == a && m[j].object.package
                        == runtime_package(),
            out@.len() == 0 <==> forall|j: int|
                0 <= j < i ==> #[trigger] m[j].object.package != runtime_package(),
        decreases actors@.len() - i,
    {
        assert(m[i as int] == actors@[i as int]@);
        let runtime_object = is_runtime_saved_object(&actors[i].object);
        assert(runtime_object == (m[i as int].object.package == runtime_package()));
        if runtime_object {
            let ghost before = out@;
            out.push(actors[i].actor);
            proof {
                assert forall|a: usize| out@.contains(a) <==> exists|j: int|
                    0 <= j < i + 1 && #[trigger] m[j].actor == a && m[j].object.package
                        == runtime_package() by {
                    if out@.contains(a) {
                        let q = choose|q: int| 0 <= q < out@.len() && out@[q] == a;
                        if q < before.len() {
                            assert(before.contains(a));
                        } else {
                            assert(m[i as int].actor == a);
                        }
                    }
                    if exists|j: int|
                        0 <= j < i + 1 && #[trigger] m[j].actor == a && m[j].object.package
                            == runtime_package() {
                        let j = choose|j: int|
                            0 <= j < i + 1 && #[trigger] m[j].actor == a && m[j].object.package
                                == runtime_package();
                        if j < i {
                            assert(before.contains(a));
                            let q = choose|q: int| 0 <= q < before.len() && before[q] == a;
                            assert(out@[q] == a);
                        } else {
                            assert(out@[before.len() as int] == a);
                        }
                    }
                }
                assert(out@.len() > 0);
                assert(!(forall|j: int|
                    0 <= j < i + 1 ==> #[trigger] m[j].object.package != runtime_package()));
            }
        } else {
            assert((forall|j: int| 0 <= j < i ==> #[trigger] m[j].object.package != runtime_package())
                <==> (forall|j: int|
                0 <= j < i + 1 ==> #[trigger] m[j].object.package != runtime_package()));
        }
        i = i + 1;
    }
    out
}

/// Drops from a snapshot the actors spawned at run time and every
/// reference to them: their fields and frame locals lose them, waits on
/// them become plain continuations, and their animation state goes.
pub fn discard_transient_actors(snapshot: &mut SavedRuntime)
    ensures
        final(snapshot)@ == discarded(old(snapshot)@),
{
    let ghost m = snapshot@;
    let transient = transient_list(&snapshot.actors);
    if transient.len() == 0 {
        return;
    }
    let ghost t = m.actors;
    let mut actors: Vec<SavedActor> = Vec::new();
    std::mem::swap(&mut actors, &mut snapshot.actors);
    let ghost n = actors@.len();
    let mut kept_actors: Vec<SavedActor> = Vec::new();
    assert(t.take(0) =~= Seq::<ActorModel>::empty());
    proof {
        lemma_filter_empty(t.take(0), actor_kept_by(t));
    }
    assert(actors_model(kept_actors@) =~= t.take(0).filter(actor_kept_by(t)).map_values(
        actor_cleaned_by(t),
    ));
    while actors.len() > 0
        invariant
            actors@.len() <= n,
            t.len() == n,
            forall|a: usize| transient@.contains(a) <==> is_transient_in(t, a),
            actors_model(actors@) == t.skip(n - actors@.len()),
            actors_model(kept_actors@) == t.take(n - actors@.len()).filter(actor_kept_by(t)).map_values(
                actor_cleaned_by(t),
            ),
        decreases actors@.len(),
    {
        let ghost k = n - actors@.len();
        let ghost before = actors@;
        let actor = actors.remove(0);
        assert(actors_model(before)[0] == t.skip(k)[0]);
        assert(t.skip(k)[0] == t[k]);
        assert(actor@ == t[k]);
        assert(actors_model(actors@) =~= actors_model(before).skip(1));
        assert(t.skip(k).skip(1) =~= t.skip(k + 1));
        proof {
            lemma_filter_step(t, actor_kept_by(t), k);
        }
        if !lists_actor(&transient, actor.actor) {
            let cleaned = actor_kept(actor, &transient, Ghost(t));
            let ghost prev = t.take(k).filter(actor_kept_by(t));
            assert(t.take(k + 1).filter(actor_kept_by(t)) == prev.push(t[k]));
            assert(prev.push(t[k]).map_values(actor_cleaned_by(t)) =~= prev.map_values(
                actor_cleaned_by(t),
            ).push(actor_without_refs(t[k], t)));
            assert(actors_model(kept_actors@.push(cleaned)) =~= actors_model(kept_actors@).push(
                cleaned@,
            ));
            kept_actors.push(cleaned);
        }
    }
    assert(t.take(n as int) =~= t);
    snapshot.actors = kept_actors;

    let mut instances: Vec<SavedObjectInstance> = Vec::new();
    std::mem::swap(&mut instances, &mut snapshot.object_instances);
    let ghost all_instances = instances_model(instances@);
    let ghost ni = instances@.len();
    let mut kept_instances: Vec<SavedObjectInstance> = Vec::new();
    while instances.len() > 0
        invariant
            instances@.len() <= ni,
            all_instances.len() == ni,
            instances_model(instances@) == all_instances.skip(ni - instances@.len()),
            kept_instances@.len() == ni - instances@.len(),
            forall|j: int|
                0 <= j < kept_instances@.len() ==> #[trigger] kept_instances@[j]@ == (InstanceModel {
                    instance: pairs_without_refs(all_instances[j].instance),
                    ..all_instances[j]
                }),
        decreases instances@.len(),
    {
        let ghost k = ni - instances@.len();
        let ghost before = instances@;
        let instance = instances.remove(0);
        assert(instances_model(before)[0] == all_instances.skip(k)[0]);
        assert(all_instances.skip(k)[0] == all_instances[k]);
        assert(instances_model(instances@) =~= instances_model(before).skip(1));
        assert(all_instances.skip(k).skip(1) =~= all_instances.skip(k + 1));
        let SavedObjectInstance { object, class, instance: fields } = instance;
        let fields = pairs_kept(fields);
        kept_instances.push(SavedObjectInstance { object, class, instance: fields });
    }
    assert(instances_model(kept_instances@) =~= all_instances.map_values(instance_cleaned()));
    snapshot.object_instances = kept_instances;

    let mut commands: Vec<SavedAnimationCommand> = Vec::new();
    std::mem::swap(&mut commands, &mut snapshot.animation_commands);
    let ghost all_commands = commands_model(commands@);
    let ghost nc = commands@.len();
    let mut kept_commands: Vec<SavedAnimationCommand> = Vec::new();
    assert(all_commands.take(0) =~= Seq::<CommandModel>::empty());
    proof {
        lemma_filter_empty(all_commands.take(0), command_kept_by(t));
    }
    while commands.len() > 0
        invariant
            commands@.len() <= nc,
            all_commands.len() == nc,
            forall|a: usize| transient@.contains(a) <==> is_transient_in(t, a),
            commands_model(commands@) == all_commands.skip(nc - commands@.len()),
            commands_model(kept_commands@) == all_commands.take(nc - commands@.len()).filter(
                command_kept_by(t),
            ),
        decreases commands@.len(),
    {
        let ghost k = nc - commands@.len();
        let ghost before = commands@;
        let command = commands.remove(0);
        assert(commands_model(before)[0] == all_commands.skip(k)[0]);
        assert(all_commands.skip(k)[0] == all_commands[k]);
        assert(commands_model(commands@) =~= commands_model(before).skip(1));
        assert(all_commands.skip(k).skip(1) =~= all_commands.skip(k + 1));
        proof {
            lemma_filter_step(all_commands, command_kept_by(t), k);
        }
        if !lists_actor(&transient, command.actor) {
            assert(commands_model(kept_commands@.push(command)) =~= commands_model(
                kept_commands@,
            ).push(command@));
            kept_commands.push(command);
        }
    }
    assert(all_commands.take(nc as int) =~= all_commands);
    snapshot.animation_commands = kept_commands;

    let ghost all_channels = snapshot.animation_channels@;
    let mut kept_channels: Vec<SavedAnimationChannel> = Vec::new();
    let mut i: usize = 0;
    assert(all_channels.take(0) =~= Seq::<SavedAnimationChannel>::empty());
    proof {
        lemma_filter_empty(all_channels.take(0), channel_kept_by(t));
    }
    while i < snapshot.animation_channels.len()
        invariant
            0 <= i <= all_channels.len(),
            all_channels == snapshot.animation_channels@,
            forall|a: usize| transient@.contains(a) <==> is_transient_in(t, a),
            kept_channels@ == all_channels.take(i as int).filter(channel_kept_by(t)),
        decreases all_channels.len() - i,
    {
        proof {
            lemma_filter_step(all_channels, channel_kept_by(t), i as int);
        }
        let channel = snapshot.animation_channels[i];
        if !lists_actor(&transient, channel.actor) && !lists_actor(&transient, channel.target) {
            kept_channels.push(channel);
        }
        i = i + 1;
    }
    assert(all_channels.take(all_channels.len() as int) =~= all_channels);
    snapshot.animation_channels = kept_channels;

    let animating = kept_indices(&snapshot.animating, &transient, Ghost(t));
    snapshot.animating = animating;
    let touching = kept_indices(&snapshot.player_probe_touching, &transient, Ghost(t));
    snapshot.player_probe_touching = touching;
}

/// The listed actors that are not in `transient`.
fn kept_indices(actors: &Vec<usize>, transient: &Vec<usize>, Ghost(t): Ghost<Seq<ActorModel>>) -> (r: Vec<usize>)
    requires
        forall|a: usize| transient@.contains(a) <==> is_transient_in(t, a),
    ensures
        r@ == actors@.filter(index_kept(t)),
{
    let mut out: Vec<usize> = Vec::new();
    let mut i: usize = 0;
    assert(actors@.take(0) =~= Seq::<usize>::empty());
    proof {
        lemma_filter_empty(actors@.take(0), index_kept(t));
    }
    while i < actors.len()
        invariant
            0 <= i <= actors@.len(),
            forall|a: usize| transient@.contains(a) <==> is_transient_in(t, a),
            out@ == actors@.take(i as int).filter(index_kept(t)),
        decreases actors@.len() - i,
    {
        proof {
            lemma_filter_step(actors@, index_kept(t), i as int);
        }
        if !lists_actor(transient, actors[i]) {
            out.push(actors[i]);
        }
        i = i + 1;
    }
    assert(actors@.take(actors@.len() as int) =~= actors@);
    out
}

/// An authored actor of the snapshot without references to run-time
/// actors.
fn actor_kept(actor: SavedActor, transient: &Vec<usize>, Ghost(t): Ghost<Seq<ActorModel>>) -> (r: SavedActor)
    requires
        forall|a: usize| transient@.contains(a) <==> is_transient_in(t, a),
    ensures
        r@ == actor_without_refs(actor@, t),
{
    let SavedActor {
        actor: index,
        object,
        class,
        instance,
        state,
        state_revision,
        frame,
        timer,
        destroyed,
        disabled_events,
    } = actor;
    let instance = pairs_kept(instance);
    let frame = match frame {
        Some(f) => Some(frame_kept(f, transient, Ghost(t))),
        None => None,
    };
    SavedActor {
        actor: index,
        object,
        class,
        instance,
        state,
        state_revision,
        frame,
        timer,
        destroyed,
        disabled_events,
    }
}

/// A frame of the snapshot without references to run-time actors.
fn frame_kept(frame: SavedFrame, transient: &Vec<usize>, Ghost(t): Ghost<Seq<ActorModel>>) -> (r: SavedFrame)
    requires
        forall|a: usize| transient@.contains(a) <==> is_transient_in(t, a),
    ensures
        r@ == frame_without_refs(frame@, t),
{
    let SavedFrame { state, instruction_pointer, locals, latent } = frame;
    let ghost all = locals_model(locals@);
    let mut out: Vec<(i32, SavedValue)> = Vec::new();
    let mut i: usize = 0;
    while i < locals.len()
        invariant
            0 <= i <= locals@.len(),
            all == locals_model(locals@),
            out@.len() == i,
            forall|j: int|
                0 <= j < i ==> (#[trigger] out@[j].0, value_model(out@[j].1)) == (
                    all[j].0,
                    without_runtime_refs(all[j].1),
                ),
        decreases locals@.len() - i,
    {
        let cleaned = without_runtime_references(&locals[i].1);
        out.push((locals[i].0, cleaned));
        i = i + 1;
    }
    let latent = match saved_latent_actor(latent) {
        Some(actor) => if lists_actor(transient, actor) {
            SavedLatent::Continue
        } else {
            latent
        },
        None => latent,
    };
    let r = SavedFrame { state, instruction_pointer, locals: out, latent };
    assert(locals_model(r.locals@) =~= all.map_values(
        |l: (i32, ValueModel)| (l.0, without_runtime_refs(l.1)),
    ));
    r
}

} // verus!
