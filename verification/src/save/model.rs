//! What a snapshot holds, and the mathematical value of each part.
use vstd::prelude::*;

verus! {

/// An object named by the package it was exported from and its index there.
#[derive(Debug)]
pub struct SavedObject {
    pub package: String,
    pub export_index: u32,
}

/// A script value as it is stored in a snapshot. Single-precision numbers are
/// held as their IEEE-754 bits.
#[derive(Debug)]
pub enum SavedValue {
    Null,
    Byte(u8),
    Int(i32),
    Float(u32),
    Bool(bool),
    String(String),
    Name(String),
    NameIndex(i32),
    Object(Option<SavedObject>),
    SelfObject,
    Vector([u32; 3]),
    Rotator([i32; 3]),
    Struct(Vec<(String, SavedValue)>),
    Array(Vec<SavedValue>),
    UnresolvedObject(String),
}

/// The latent action a suspended state frame waits on; actor indices refer
/// to actors of the snapshot, sleep durations are single-precision bits.
#[derive(Clone, Copy, Debug, PartialEq, Eq, Structural)]
pub enum SavedLatent {
    Continue,
    Stop,
    Sleep(u32),
    FinishAnimation(usize),
    FinishInterpolation(usize),
    MoveTo(usize),
    MoveToward(usize),
    TurnTo(usize),
    TurnToward(usize),
}

/// A suspended state frame.
pub struct SavedFrame {
    pub state: SavedObject,
    pub instruction_pointer: u32,
    pub locals: Vec<(i32, SavedValue)>,
    pub latent: SavedLatent,
}

/// An actor timer; times are single-precision bits.
#[derive(Clone, Copy, Debug, PartialEq, Eq, Structural)]
pub struct SavedTimer {
    pub remaining: u32,
    pub rate: u32,
    pub looping: bool,
}

/// The mutable state of one authored actor.
pub struct SavedActor {
    pub actor: usize,
    pub object: SavedObject,
    pub class: SavedObject,
    pub instance: Vec<(SavedObject, SavedValue)>,
    pub state: Option<String>,
    pub state_revision: u64,
    pub frame: Option<SavedFrame>,
    pub timer: Option<SavedTimer>,
    pub destroyed: bool,
    pub disabled_events: Vec<(Option<String>, String)>,
}

/// The fields of a non-actor object.
pub struct SavedObjectInstance {
    pub object: SavedObject,
    pub class: SavedObject,
    pub instance: Vec<(SavedObject, SavedValue)>,
}

/// The animation an actor plays; rate and tween time are single-precision
/// bits.
pub struct SavedAnimationCommand {
    pub actor: usize,
    pub sequence: String,
    pub relative_rate: u32,
    pub tween_time: u32,
    pub looping: bool,
    pub tween_only: bool,
    pub root_motion: bool,
}

/// One actor's animation channel driven by another actor.
#[derive(Clone, Copy, Debug, PartialEq, Eq, Structural)]
pub struct SavedAnimationChannel {
    pub actor: usize,
    pub root_bone: usize,
    pub target: usize,
}

/// A whole snapshot of one map.
pub struct SavedRuntime {
    pub map: String,
    pub random_state: u32,
    pub player_alt_fire_pressed: bool,
    pub actors: Vec<SavedActor>,
    pub object_instances: Vec<SavedObjectInstance>,
    pub animation_commands: Vec<SavedAnimationCommand>,
    pub animation_channels: Vec<SavedAnimationChannel>,
    pub animating: Vec<usize>,
    pub player_probe_touching: Vec<usize>,
}

/// Mathematical value of a `SavedObject`.
pub struct ObjectModel {
    pub package: Seq<char>,
    pub export_index: u32,
}

/// Mathematical value of a `SavedValue`.
pub enum ValueModel {
    Null,
    Byte(u8),
    Int(i32),
    Float(u32),
    Bool(bool),
    String(Seq<char>),
    Name(Seq<char>),
    NameIndex(i32),
    Object(Option<ObjectModel>),
    SelfObject,
    Vector([u32; 3]),
    Rotator([i32; 3]),
    Struct(Seq<(Seq<char>, ValueModel)>),
    Array(Seq<ValueModel>),
    UnresolvedObject(Seq<char>),
}

pub struct FrameModel {
    pub state: ObjectModel,
    pub instruction_pointer: u32,
    pub locals: Seq<(i32, ValueModel)>,
    pub latent: SavedLatent,
}

pub struct ActorModel {
    pub actor: usize,
    pub object: ObjectModel,
    pub class: ObjectModel,
    pub instance: Seq<(ObjectModel, ValueModel)>,
    pub state: Option<Seq<char>>,
    pub state_revision: u64,
    pub frame: Option<FrameModel>,
    pub timer: Option<SavedTimer>,
    pub destroyed: bool,
    pub disabled_events: Seq<(Option<Seq<char>>, Seq<char>)>,
}

pub struct InstanceModel {
    pub object: ObjectModel,
    pub class: ObjectModel,
    pub instance: Seq<(ObjectModel, ValueModel)>,
}

pub struct CommandModel {
    pub actor: usize,
    pub sequence: Seq<char>,
    pub relative_rate: u32,
    pub tween_time: u32,
    pub looping: bool,
    pub tween_only: bool,
    pub root_motion: bool,
}

pub struct RuntimeModel {
    pub map: Seq<char>,
    pub random_state: u32,
    pub player_alt_fire_pressed: bool,
    pub actors: Seq<ActorModel>,
    pub object_instances: Seq<InstanceModel>,
    pub animation_commands: Seq<CommandModel>,
    pub animation_channels: Seq<SavedAnimationChannel>,
    pub animating: Seq<usize>,
    pub player_probe_touching: Seq<usize>,
}

impl View for SavedObject {
    type V = ObjectModel;

    open spec fn view(&self) -> ObjectModel {
        ObjectModel { package: self.package@, export_index: self.export_index }
    }
}

impl View for SavedValue {
    type V = ValueModel;

    open spec fn view(&self) -> ValueModel {
        value_model(*self)
    }
}

impl View for SavedAnimationChannel {
    type V = SavedAnimationChannel;

    open spec fn view(&self) -> SavedAnimationChannel {
        *self
    }
}

pub open spec fn option_object_model(o: Option<SavedObject>) -> Option<ObjectModel> {
    match o {
        Some(o) => Some(o@),
        None => None,
    }
}

pub open spec fn option_string_model(o: Option<String>) -> Option<Seq<char>> {
    match o {
        Some(s) => Some(s@),
        None => None,
    }
}

pub open spec fn value_model(v: SavedValue) -> ValueModel
    decreases v,
{
    match v {
        SavedValue::Null => ValueModel::Null,
        SavedValue::Byte(b) => ValueModel::Byte(b),
        SavedValue::Int(i) => ValueModel::Int(i),
        SavedValue::Float(f) => ValueModel::Float(f),
        SavedValue::Bool(b) => ValueModel::Bool(b),
        SavedValue::String(s) => ValueModel::String(s@),
        SavedValue::Name(s) => ValueModel::Name(s@),
        SavedValue::NameIndex(i) => ValueModel::NameIndex(i),
        SavedValue::Object(o) => ValueModel::Object(option_object_model(o)),
        SavedValue::SelfObject => ValueModel::SelfObject,
        SavedValue::Vector(v) => ValueModel::Vector(v),
        SavedValue::Rotator(r) => ValueModel::Rotator(r),
        SavedValue::Struct(fields) => ValueModel::Struct(fields_model(fields@)),
        SavedValue::Array(values) => ValueModel::Array(values_model(values@)),
        SavedValue::UnresolvedObject(s) => ValueModel::UnresolvedObject(s@),
    }
}

pub open spec fn values_model(values: Seq<SavedValue>) -> Seq<ValueModel>
    decreases values,
{
    if values.len() == 0 {
        Seq::empty()
    } else {
        values_model(values.subrange(0, values.len() - 1)).push(
            value_model(values[values.len() - 1]),
        )
    }
}

pub open spec fn fields_model(fields: Seq<(String, SavedValue)>) -> Seq<(Seq<char>, ValueModel)>
    decreases fields,
{
    if fields.len() == 0 {
        Seq::empty()
    } else {
        fields_model(fields.subrange(0, fields.len() - 1)).push(
            (fields[fields.len() - 1].0@, value_model(fields[fields.len() - 1].1)),
        )
    }
}

pub proof fn lemma_values_model_index(values: Seq<SavedValue>)
    ensures
        values_model(values).len() == values.len(),
        forall|i: int|
            0 <= i < values.len() ==> #[trigger] values_model(values)[i] == value_model(values[i]),
    decreases values.len(),
{
    if values.len() > 0 {
        let init = values.subrange(0, values.len() - 1);
        lemma_values_model_index(init);
        assert forall|i: int| 0 <= i < values.len() implies #[trigger] values_model(values)[i]
            == value_model(values[i]) by {
            if i < values.len() - 1 {
                assert(init[i] == values[i]);
            }
        }
    }
}

pub proof fn lemma_values_model_push(values: Seq<SavedValue>, v: SavedValue)
    ensures
        values_model(values.push(v)) == values_model(values).push(value_model(v)),
{
    assert(values.push(v).subrange(0, values.len() as int) =~= values);
}

pub proof fn lemma_fields_model_index(fields: Seq<(String, SavedValue)>)
    ensures
        fields_model(fields).len() == fields.len(),
        forall|i: int|
            0 <= i < fields.len() ==> #[trigger] fields_model(fields)[i] == (
                fields[i].0@,
                value_model(fields[i].1),
            ),
    decreases fields.len(),
{
    if fields.len() > 0 {
        let init = fields.subrange(0, fields.len() - 1);
        lemma_fields_model_index(init);
        assert forall|i: int| 0 <= i < fields.len() implies #[trigger] fields_model(fields)[i] == (
            fields[i].0@,
            value_model(fields[i].1),
        ) by {
            if i < fields.len() - 1 {
                assert(init[i] == fields[i]);
            }
        }
    }
}

pub proof fn lemma_fields_model_push(fields: Seq<(String, SavedValue)>, f: (String, SavedValue))
    ensures
        fields_model(fields.push(f)) == fields_model(fields).push((f.0@, value_model(f.1))),
{
    assert(fields.push(f).subrange(0, fields.len() as int) =~= fields);
}

/// Mathematical value of a list of instance fields.
pub open spec fn pairs_model(pairs: Seq<(SavedObject, SavedValue)>) -> Seq<(ObjectModel, ValueModel)> {
    pairs.map_values(|p: (SavedObject, SavedValue)| (p.0@, value_model(p.1)))
}

pub open spec fn locals_model(locals: Seq<(i32, SavedValue)>) -> Seq<(i32, ValueModel)> {
    locals.map_values(|p: (i32, SavedValue)| (p.0, value_model(p.1)))
}

pub open spec fn events_model(events: Seq<(Option<String>, String)>) -> Seq<
    (Option<Seq<char>>, Seq<char>),
> {
    events.map_values(|e: (Option<String>, String)| (option_string_model(e.0), e.1@))
}

impl View for SavedFrame {
    type V = FrameModel;

    open spec fn view(&self) -> FrameModel {
        FrameModel {
            state: self.state@,
            instruction_pointer: self.instruction_pointer,
            locals: locals_model(self.locals@),
            latent: self.latent,
        }
    }
}

pub open spec fn option_frame_model(f: Option<SavedFrame>) -> Option<FrameModel> {
    match f {
        Some(f) => Some(f@),
        None => None,
    }
}

impl View for SavedActor {
    type V = ActorModel;

    open spec fn view(&self) -> ActorModel {
        ActorModel {
            actor: self.actor,
            object: self.object@,
            class: self.class@,
            instance: pairs_model(self.instance@),
            state: option_string_model(self.state),
            state_revision: self.state_revision,
            frame: option_frame_model(self.frame),
            timer: self.timer,
            destroyed: self.destroyed,
            disabled_events: events_model(self.disabled_events@),
        }
    }
}

impl View for SavedObjectInstance {
    type V = InstanceModel;

    open spec fn view(&self) -> InstanceModel {
        InstanceModel {
            object: self.object@,
            class: self.class@,
            instance: pairs_model(self.instance@),
        }
    }
}

impl View for SavedAnimationCommand {
    type V = CommandModel;

    open spec fn view(&self) -> CommandModel {
        CommandModel {
            actor: self.actor,
            sequence: self.sequence@,
            relative_rate: self.relative_rate,
            tween_time: self.tween_time,
            looping: self.looping,
            tween_only: self.tween_only,
            root_motion: self.root_motion,
        }
    }
}

pub open spec fn actors_model(actors: Seq<SavedActor>) -> Seq<ActorModel> {
    actors.map_values(|a: SavedActor| a@)
}

pub open spec fn instances_model(instances: Seq<SavedObjectInstance>) -> Seq<InstanceModel> {
    instances.map_values(|i: SavedObjectInstance| i@)
}

pub open spec fn commands_model(commands: Seq<SavedAnimationCommand>) -> Seq<CommandModel> {
    commands.map_values(|c: SavedAnimationCommand| c@)
}

impl View for SavedRuntime {
    type V = RuntimeModel;

    open spec fn view(&self) -> RuntimeModel {
        RuntimeModel {
            map: self.map@,
            random_state: self.random_state,
            player_alt_fire_pressed: self.player_alt_fire_pressed,
            actors: actors_model(self.actors@),
            object_instances: instances_model(self.object_instances@),
            animation_commands: commands_model(self.animation_commands@),
            animation_channels: self.animation_channels@,
            animating: self.animating@,
            player_probe_touching: self.player_probe_touching@,
        }
    }
}

} // verus!
