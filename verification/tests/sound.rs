use openhp1_runtime::state::DisabledEvents;
use openhp1_runtime::value::{ObjectId, Value};
use openhp1_runtime::world::runtime::{ScriptRuntime, SoundChannel};

fn object(package: &str, export_index: usize) -> ObjectId {
    ObjectId { package: package.to_owned(), export_index }
}

fn runtime_with_sounds() -> ScriptRuntime {
    ScriptRuntime {
        actor_objects: Vec::new(),
        actor_classes: Vec::new(),
        instances: Vec::new(),
        object_instances: Vec::new(),
        actor_states: Vec::new(),
        state_revisions: Vec::new(),
        state_frames: Vec::new(),
        timers: Vec::new(),
        destroyed: Vec::new(),
        disabled_events: DisabledEvents::new(),
        animation_commands: Vec::new(),
        animation_channels: Vec::new(),
        animating: Vec::new(),
        player_probe_touching: Vec::new(),
        handle_objects: vec![object("Sounds/Spells.uax", 1), object("Sounds/Spells.uax", 2)],
        random_state: 1,
        player_alt_fire_pressed: false,
        player_space_pressed: false,
        active_state_actor: None,
        pending_latent: None,
        next_actor: 0,
        sound_channels: Vec::new(),
    }
}

fn channel_sound(runtime: &ScriptRuntime, actor: usize, slot: u8) -> Option<usize> {
    runtime
        .sound_channels
        .iter()
        .find(|(key, _)| *key == (actor, slot))
        .map(|(_, channel)| channel.sound.export_index)
}

#[test]
fn sounds_start_in_slots_unless_the_slot_is_kept() {
    let mut runtime = runtime_with_sounds();
    assert!(runtime.start_sound(4, 0, object("Sounds/Spells.uax", 1), 0, 0, false));
    assert!(runtime.sound_channels.is_empty());
    assert!(runtime.start_sound(4, 2, object("Sounds/Spells.uax", 1), 5, 7, false));
    assert_eq!(channel_sound(&runtime, 4, 2), Some(1));
    assert!(!runtime.start_sound(4, 2, object("Sounds/Spells.uax", 2), 5, 7, true));
    assert_eq!(channel_sound(&runtime, 4, 2), Some(1));
    assert!(runtime.start_sound(4, 2, object("Sounds/Spells.uax", 2), 5, 7, false));
    assert_eq!(channel_sound(&runtime, 4, 2), Some(2));
    assert_eq!(runtime.sound_channels.len(), 1);
}

#[test]
fn stop_sound_names_a_sound_and_a_slot() {
    let runtime = runtime_with_sounds();
    let (sound, slot) = runtime.stop_sound_arguments(&[Value::Object(2), Value::Byte(3)]).unwrap();
    assert_eq!(sound, Some(object("Sounds/Spells.uax", 2)));
    assert_eq!(slot, Some(3));
    assert_eq!(runtime.stop_sound_arguments(&[]).unwrap(), (None, None));
    assert_eq!(runtime.stop_sound_arguments(&[Value::Object(0), Value::Null]).unwrap(), (None, None));
    assert!(runtime.stop_sound_arguments(&[Value::Object(3)]).is_err());
    assert_eq!(runtime.stop_sound_arguments(&[Value::Int(1)]).unwrap_err(), "StopSound sound is int");
    assert_eq!(runtime.stop_sound_arguments(&[Value::Null, Value::Int(1)]).unwrap_err(), "StopSound slot is int");
    assert!(runtime.stop_sound_arguments(&[Value::Null, Value::Null, Value::Null]).is_err());
}

#[test]
fn stopping_keeps_other_actors_sounds_and_slots() {
    let mut runtime = runtime_with_sounds();
    runtime.start_sound(4, 1, object("Sounds/Spells.uax", 1), 5, 7, false);
    runtime.start_sound(4, 2, object("Sounds/Spells.uax", 2), 5, 7, false);
    runtime.start_sound(5, 1, object("Sounds/Spells.uax", 1), 5, 7, false);
    let other = object("Sounds/Spells.uax", 2);
    runtime.stop_sound(4, Some(&other), Some(1));
    assert_eq!(runtime.sound_channels.len(), 3);
    runtime.stop_sound(4, None, Some(2));
    assert_eq!(channel_sound(&runtime, 4, 2), None);
    assert_eq!(channel_sound(&runtime, 4, 1), Some(1));
    runtime.stop_sound(4, None, None);
    assert_eq!(runtime.sound_channels.len(), 1);
    assert_eq!(channel_sound(&runtime, 5, 1), Some(1));
}

#[test]
fn modify_sound_retunes_the_named_channel() {
    let mut runtime = runtime_with_sounds();
    runtime.start_sound(4, 1, object("Sounds/Spells.uax", 1), 5, 1.0f32.to_bits(), false);
    let pitch = 1.5f32.to_bits();
    assert!(runtime.modify_sound(4, &[Value::Byte(2), Value::Float(pitch), Value::Object(1), Value::Byte(1)]).unwrap());
    assert_eq!(
        runtime.sound_channels[0].1,
        SoundChannel { sound: object("Sounds/Spells.uax", 1), remaining: 5, pitch }
    );
    assert!(runtime.modify_sound(4, &[Value::Byte(1), Value::Float(0), Value::Null, Value::Byte(1)]).unwrap());
    assert_eq!(runtime.sound_channels[0].1.pitch, pitch);
    assert!(!runtime.modify_sound(4, &[Value::Byte(2), Value::Float(0), Value::Object(2), Value::Byte(1)]).unwrap());
    assert!(!runtime.modify_sound(4, &[Value::Byte(2), Value::Float(0)]).unwrap());
    assert!(!runtime.modify_sound(5, &[Value::Byte(2), Value::Float(0), Value::Null, Value::Byte(1)]).unwrap());
    assert!(runtime
        .modify_sound(4, &[Value::Byte(2), Value::Float(f32::NAN.to_bits()), Value::Null, Value::Byte(1)])
        .is_err());
    assert!(runtime.modify_sound(4, &[Value::Byte(2), Value::Float(0), Value::Object(9), Value::Byte(1)]).is_err());
    assert_eq!(runtime.sound_channels[0].1.pitch, pitch);
}
