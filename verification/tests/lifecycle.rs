use openhp1_runtime::error::DispatchError;
use openhp1_runtime::state::DisabledEvents;
use openhp1_runtime::value::{ObjectId, StoredValue, Value};
use openhp1_runtime::world::lifecycle::spawn_class_argument;
use openhp1_runtime::world::runtime::{ActorTimer, ScriptRuntime, SoundChannel};

fn object(package: &str, export_index: usize) -> ObjectId {
    ObjectId { package: package.to_owned(), export_index }
}

fn runtime_with_next(next_actor: usize) -> ScriptRuntime {
    ScriptRuntime {
        actor_objects: vec![(0, object("Maps/Test.unr", 4))],
        actor_classes: vec![(0, object("System/Engine.u", 1))],
        instances: vec![(0, Vec::new())],
        object_instances: Vec::new(),
        actor_states: vec![(0, Some("Idle".to_owned()))],
        state_revisions: Vec::new(),
        state_frames: Vec::new(),
        timers: vec![
            (0, ActorTimer { remaining: 1, rate: 2, looping: false }),
            (5, ActorTimer { remaining: 3, rate: 4, looping: true }),
        ],
        destroyed: vec![5],
        disabled_events: DisabledEvents::new(),
        animation_commands: Vec::new(),
        animation_channels: Vec::new(),
        animating: vec![0, 5],
        player_probe_touching: Vec::new(),
        handle_objects: Vec::new(),
        random_state: 0,
        player_alt_fire_pressed: false,
        player_space_pressed: false,
        active_state_actor: None,
        pending_latent: None,
        next_actor: next_actor,
        sound_channels: vec![
            ((0, 1), SoundChannel { sound: object("Sounds.uax", 2), remaining: 10, pitch: 1 }),
            ((5, 1), SoundChannel { sound: object("Sounds.uax", 3), remaining: 10, pitch: 1 }),
            ((5, 2), SoundChannel { sound: object("Sounds.uax", 4), remaining: 10, pitch: 1 }),
        ],
    }
}

#[test]
fn spawn_takes_a_class_and_at_most_four_more_arguments() {
    assert_eq!(spawn_class_argument(&[Value::Object(3)]), Ok(3));
    assert_eq!(spawn_class_argument(&[Value::Null, Value::Int(1)]), Ok(0));
    assert_eq!(
        spawn_class_argument(&[]),
        Err("Spawn expects a class and at most 4 optional arguments, found 0".to_owned())
    );
    let six = vec![Value::Object(1), Value::Null, Value::Null, Value::Null, Value::Null, Value::Null];
    assert_eq!(
        spawn_class_argument(&six),
        Err("Spawn expects a class and at most 4 optional arguments, found 6".to_owned())
    );
    assert_eq!(
        spawn_class_argument(&[Value::Int(2)]),
        Err("Spawn class is int, expected object".to_owned())
    );
}

#[test]
fn a_spawned_actor_takes_the_next_index() {
    let mut runtime = runtime_with_next(5);
    let instance = vec![(object("System/Engine.u", 9), StoredValue::Value(Value::Int(1)))];
    let actor = runtime.register_spawned_actor(object("System/Engine.u", 2), instance).unwrap();
    assert_eq!(actor, 5);
    assert_eq!(runtime.next_actor, 6);
    let registered = runtime.actor_objects.iter().find(|entry| entry.0 == 5).unwrap();
    assert_eq!(registered.1.package, "<runtime>");
    assert_eq!(registered.1.export_index, 5);
    let class = runtime.actor_classes.iter().find(|entry| entry.0 == 5).unwrap();
    assert_eq!(class.1.export_index, 2);
    assert!(runtime.actor_states.iter().any(|entry| entry.0 == 5 && entry.1.is_none()));
    assert!(!runtime.destroyed.contains(&5));
    assert_eq!(runtime.instances.iter().find(|entry| entry.0 == 5).unwrap().1.len(), 1);
    assert!(runtime.actor_states.iter().any(|entry| entry.0 == 0 && entry.1.as_deref() == Some("Idle")));
}

#[test]
fn no_actor_is_spawned_past_the_last_index() {
    let mut runtime = runtime_with_next(usize::MAX);
    let result = runtime.register_spawned_actor(object("System/Engine.u", 2), Vec::new());
    assert!(matches!(result, Err(DispatchError::ObjectLimit)));
    assert_eq!(runtime.actor_objects.len(), 1);
    assert_eq!(runtime.next_actor, usize::MAX);
}

#[test]
fn a_destroyed_actor_loses_its_timer_animation_and_sounds() {
    let mut runtime = runtime_with_next(6);
    runtime.forget_destroyed_actor(0);
    assert!(runtime.destroyed.contains(&0) && runtime.destroyed.contains(&5));
    assert!(runtime.timers.iter().all(|entry| entry.0 != 0));
    assert!(runtime.timers.iter().any(|entry| entry.0 == 5));
    assert_eq!(runtime.animating, vec![5]);
    assert_eq!(runtime.sound_channels.len(), 2);
    assert!(runtime.sound_channels.iter().all(|entry| entry.0 .0 == 5));
    runtime.forget_destroyed_actor(0);
    assert_eq!(runtime.destroyed.iter().filter(|actor| **actor == 0).count(), 1);
}
