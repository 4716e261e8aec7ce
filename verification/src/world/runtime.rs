//! The mutable state of the script runtime that a snapshot captures.
use vstd::prelude::*;
use crate::state::DisabledEvents;
use crate::value::{ObjectId, StoredValue, Value};

verus! {

/// What a suspended state frame waits on; sleep durations are
/// single-precision bits, the others name an actor.
#[derive(Clone, Copy, Debug, PartialEq, Eq, Structural)]
pub enum LatentAction {
    Continue,
    Stop,
    Sleep(u32),
    FinishAnimation(usize),
    FinishInterpolation(usize),
    MoveTo(usize),
    MoveToward(usize),
    TurnTo(usize),
    TurnToward(usize),
}

/// An actor's suspended state code. `instruction_pointer` is absent while
/// the frame runs an iterator, which cannot be resumed from a snapshot.
pub struct StateFrame {
    pub state: ObjectId,
    pub instruction_pointer: Option<usize>,
    pub locals: Vec<(i32, Value)>,
    pub latent: LatentAction,
}

/// An actor timer; times are single-precision bits.
#[derive(Clone, Copy, Debug, PartialEq, Eq, Structural)]
pub struct ActorTimer {
    pub remaining: u32,
    pub rate: u32,
    pub looping: bool,
}

/// The animation an actor plays; rate and tween time are single-precision
/// bits.
pub struct AnimationCommand {
    pub sequence: String,
    pub relative_rate: u32,
    pub tween_time: u32,
    pub looping: bool,
    pub tween_only: bool,
    pub root_motion: bool,
}

/// Mathematical value of an `AnimationCommand`.
pub struct AnimationModel {
    pub sequence: Seq<char>,
    pub relative_rate: u32,
    pub tween_time: u32,
    pub looping: bool,
    pub tween_only: bool,
    pub root_motion: bool,
}

impl View for AnimationCommand {
    type V = AnimationModel;

    open spec fn view(&self) -> AnimationModel {
        AnimationModel {
            sequence: self.sequence@,
            relative_rate: self.relative_rate,
            tween_time: self.tween_time,
            looping: self.looping,
            tween_only: self.tween_only,
            root_motion: self.root_motion,
        }
    }
}

/// A channel of an actor's skeleton driven by another actor.
#[derive(Clone, Copy, Debug, PartialEq, Eq, Structural)]
pub struct AnimationChannel {
    pub root_bone: usize,
    pub actor: usize,
}

/// A sound playing in one of an actor's slots; the time left and the pitch
/// are single-precision bits.
#[derive(Debug, PartialEq, Eq)]
pub struct SoundChannel {
    pub sound: ObjectId,
    pub remaining: u32,
    pub pitch: u32,
}

/// The property values of one object.
pub type InstanceState = Vec<(ObjectId, StoredValue)>;

/// The runtime state that snapshots capture. In a table keyed by actor, the
/// first entry for an actor is the one that counts.
pub struct ScriptRuntime {
    /// The object each registered actor was created from.
    pub actor_objects: Vec<(usize, ObjectId)>,
    /// The class of each registered actor.
    pub actor_classes: Vec<(usize, ObjectId)>,
    /// The property values of each actor.
    pub instances: Vec<(usize, InstanceState)>,
    /// Non-actor objects: the object, its class and its property values.
    pub object_instances: Vec<(ObjectId, ObjectId, InstanceState)>,
    /// The state each actor is in, if any.
    pub actor_states: Vec<(usize, Option<String>)>,
    /// How often each actor's state has changed.
    pub state_revisions: Vec<(usize, u64)>,
    /// Suspended state code per actor.
    pub state_frames: Vec<(usize, StateFrame)>,
    /// Timers per actor.
    pub timers: Vec<(usize, ActorTimer)>,
    /// Destroyed actors.
    pub destroyed: Vec<usize>,
    /// Events disabled per actor and state.
    pub disabled_events: DisabledEvents,
    /// The animation each actor plays.
    pub animation_commands: Vec<(usize, AnimationCommand)>,
    /// Animation channels per actor.
    pub animation_channels: Vec<(usize, Vec<AnimationChannel>)>,
    /// Actors whose animation advances.
    pub animating: Vec<usize>,
    /// Actors the player's probe touches.
    pub player_probe_touching: Vec<usize>,
    /// Objects named by script object handles: handle `h` is entry `h - 1`.
    pub handle_objects: Vec<ObjectId>,
    /// State of the random number generator.
    pub random_state: u32,
    pub player_alt_fire_pressed: bool,
    pub player_space_pressed: bool,
    /// The actor whose state code is running, if any.
    pub active_state_actor: Option<usize>,
    /// A latent action not yet handed back to its frame, if any.
    pub pending_latent: Option<LatentAction>,
    /// The index the next spawned actor gets.
    pub next_actor: usize,
    /// The sound playing in each slot of each actor.
    pub sound_channels: Vec<((usize, u8), SoundChannel)>,
}

} // verus!
