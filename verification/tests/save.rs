use openhp1_runtime::error::DispatchError;
use openhp1_runtime::save::model::{
    SavedActor, SavedAnimationChannel, SavedAnimationCommand, SavedFrame, SavedLatent,
    SavedObject, SavedObjectInstance, SavedRuntime, SavedValue,
};
use openhp1_runtime::state::{event_disabled, DisabledEvents};
use openhp1_runtime::value::{runtime_actor_id, ObjectId, StoredValue, Value};
use openhp1_runtime::world::convert::{saved_object, saved_plain_value, StemTable};
use openhp1_runtime::world::replay::{replayed_animation_actors, resumed_frame_actors};
use openhp1_runtime::world::restore::{restore_latent, RestorePlan};
use openhp1_runtime::world::runtime::{
    ActorTimer, AnimationChannel, AnimationCommand, LatentAction, ScriptRuntime, StateFrame,
};
use openhp1_runtime::world::transient::{discard_transient_actors, discard_transient_reference};

fn object(package: &str, export_index: usize) -> ObjectId {
    ObjectId { package: package.to_owned(), export_index }
}

fn empty_runtime() -> ScriptRuntime {
    ScriptRuntime {
        actor_objects: Vec::new(),
        actor_classes: Vec::new(),
        instances: Vec::new(),
        object_instances: Vec::new(),
        actor_states: Vec::new(),
        state_revisions: Vec::new(),
        state_frames: Vec::new(),
        timers: Vec::new(),
        destroyed: Vec::new(),
        disabled_events: DisabledEvents::new(),
        animation_commands: Vec::new(),
        animation_channels: Vec::new(),
        animating: Vec::new(),
        player_probe_touching: Vec::new(),
        handle_objects: Vec::new(),
        random_state: 7,
        player_alt_fire_pressed: true,
        player_space_pressed: false,
        active_state_actor: None,
        pending_latent: None,
        next_actor: 0,
        sound_channels: Vec::new(),
    }
}

/// A map with two authored actors (0 and 1) and one run-time actor (2).
fn populated_runtime() -> ScriptRuntime {
    let mut runtime = empty_runtime();
    runtime.actor_objects = vec![
        (0, object("Maps/Test.unr", 4)),
        (1, object("Maps/Test.unr", 5)),
        (2, runtime_actor_id(2)),
    ];
    runtime.actor_classes = vec![
        (0, object("System/Engine.u", 1)),
        (1, object("System/Engine.u", 2)),
        (2, object("System/Engine.u", 2)),
    ];
    runtime.handle_objects = vec![object("Maps/Test.unr", 5), runtime_actor_id(2)];
    runtime.instances = vec![
        (
            0,
            vec![
                (object("System/Engine.u", 30), StoredValue::Value(Value::Int(3))),
                (object("System/Engine.u", 20), StoredValue::Object(Some(runtime_actor_id(2)))),
                (object("System/Engine.u", 10), StoredValue::Name("Idle".to_owned())),
            ],
        ),
        (1, vec![(object("System/Engine.u", 10), StoredValue::Value(Value::Object(1)))]),
        (2, Vec::new()),
    ];
    runtime.actor_states = vec![(0, Some("Waiting".to_owned())), (1, None)];
    runtime.state_revisions = vec![(0, 3)];
    runtime.state_frames = vec![(
        0,
        StateFrame {
            state: object("System/Engine.u", 40),
            instruction_pointer: Some(12),
            locals: vec![(2, Value::Int(9)), (1, Value::Object(1))],
            latent: LatentAction::MoveToward(1),
        },
    )];
    runtime.timers = vec![(1, ActorTimer { remaining: 1.5f32.to_bits(), rate: 2.0f32.to_bits(), looping: true })];
    runtime.destroyed = vec![1];
    runtime.animation_commands = vec![
        (
            2,
            AnimationCommand {
                sequence: "Cast".to_owned(),
                relative_rate: 1.0f32.to_bits(),
                tween_time: 0,
                looping: true,
                tween_only: false,
                root_motion: false,
            },
        ),
        (
            1,
            AnimationCommand {
                sequence: "Idle".to_owned(),
                relative_rate: 1.0f32.to_bits(),
                tween_time: 0,
                looping: true,
                tween_only: false,
                root_motion: false,
            },
        ),
    ];
    runtime.animation_channels = vec![(
        0,
        vec![AnimationChannel { root_bone: 2, actor: 1 }, AnimationChannel { root_bone: 1, actor: 2 }],
    )];
    runtime.animating = vec![2, 1, 0];
    runtime.player_probe_touching = vec![1, 2];
    openhp1_runtime::state::set_event_disabled(&mut runtime.disabled_events, 0, Some("Waiting"), "Tick", true);
    openhp1_runtime::state::set_event_disabled(&mut runtime.disabled_events, 0, None, "Bump", true);
    runtime
}

#[test]
fn save_snapshot_rejects_truncated_and_unknown_versions() {
    assert!(matches!(
        ScriptRuntime::saved_game_map(b"OHPS"),
        Err(DispatchError::SaveState { .. })
    ));
    assert!(matches!(
        ScriptRuntime::saved_game_map(b"OHPS\x02\0"),
        Err(DispatchError::SaveState { .. })
    ));
}

#[test]
fn a_save_records_the_map_it_was_taken_for() {
    let runtime = populated_runtime();
    let bytes = runtime.save_game("Maps/Test.unr").unwrap();
    assert_eq!(&bytes[0..4], b"OHPS");
    assert_eq!(ScriptRuntime::saved_game_map(&bytes).unwrap(), "Maps/Test.unr");
}

#[test]
fn a_save_restores_onto_the_runtime_it_was_taken_from() {
    let mut runtime = populated_runtime();
    let bytes = runtime.save_game("Maps/Test.unr").unwrap();
    let plan = runtime.restore_game("maps/test.UNR", &bytes).unwrap();
    assert_eq!(plan.targets, vec![(0, 0), (1, 1)]);
    let snapshot = plan.snapshot;
    assert_eq!(snapshot.random_state, 7);
    assert!(snapshot.player_alt_fire_pressed);
    assert_eq!(snapshot.actors.len(), 2);
    let first = &snapshot.actors[0];
    assert_eq!(first.object.package, "test");
    assert_eq!(first.object.export_index, 4);
    assert_eq!(first.class.package, "engine");
    let fields: Vec<u32> = first.instance.iter().map(|(field, _)| field.export_index).collect();
    assert_eq!(fields, vec![10, 30]);
    assert_eq!(first.state.as_deref(), Some("Waiting"));
    assert_eq!(first.state_revision, 3);
    let frame = first.frame.as_ref().unwrap();
    assert_eq!(frame.instruction_pointer, 12);
    assert_eq!(frame.locals.iter().map(|(slot, _)| *slot).collect::<Vec<_>>(), vec![1, 2]);
    assert!(matches!(&frame.locals[0].1, SavedValue::Object(Some(o)) if o.package == "test" && o.export_index == 5));
    assert_eq!(frame.latent, SavedLatent::MoveToward(1));
    assert_eq!(
        first.disabled_events,
        vec![(None, "bump".to_owned()), (Some("waiting".to_owned()), "tick".to_owned())]
    );
    let second = &snapshot.actors[1];
    assert!(second.destroyed);
    assert_eq!(second.timer.unwrap().rate, 2.0f32.to_bits());
    assert_eq!(snapshot.animation_commands.len(), 1);
    assert_eq!(snapshot.animation_commands[0].actor, 1);
    assert_eq!(
        snapshot.animation_channels,
        vec![SavedAnimationChannel { actor: 0, root_bone: 2, target: 1 }]
    );
    assert_eq!(snapshot.animating, vec![0, 1]);
    assert_eq!(snapshot.player_probe_touching, vec![1]);
}

#[test]
fn a_save_is_refused_for_another_map() {
    let mut runtime = populated_runtime();
    let bytes = runtime.save_game("Maps/Test.unr").unwrap();
    assert!(matches!(
        runtime.restore_game("Maps/Other.unr", &bytes),
        Err(DispatchError::SaveState { .. })
    ));
}

#[test]
fn a_save_is_refused_when_an_authored_actor_is_missing() {
    let runtime = populated_runtime();
    let bytes = runtime.save_game("Maps/Test.unr").unwrap();
    let mut larger = populated_runtime();
    larger.actor_objects.push((3, object("Maps/Test.unr", 6)));
    larger.actor_classes.push((3, object("System/Engine.u", 2)));
    assert!(matches!(
        larger.restore_game("Maps/Test.unr", &bytes),
        Err(DispatchError::SaveState { .. })
    ));
}

#[test]
fn map_identifiers_must_be_one_nonempty_line() {
    let runtime = populated_runtime();
    assert!(matches!(runtime.save_game(""), Err(DispatchError::SaveState { .. })));
    assert!(matches!(runtime.save_game("a\nb"), Err(DispatchError::SaveState { .. })));
    assert!(matches!(runtime.save_game(&"m".repeat(1025)), Err(DispatchError::SaveState { .. })));
    assert!(runtime.save_game(&"m".repeat(1024)).is_ok());
}

#[test]
fn running_script_state_cannot_be_saved() {
    let mut runtime = populated_runtime();
    runtime.active_state_actor = Some(0);
    assert!(matches!(runtime.save_game("Maps/Test.unr"), Err(DispatchError::SaveState { .. })));
}

#[test]
fn non_finite_values_and_dangling_handles_are_refused() {
    let mut runtime = populated_runtime();
    runtime.instances[1].1.push((object("System/Engine.u", 11), StoredValue::Value(Value::Float(f32::NAN.to_bits()))));
    assert!(runtime.save_game("Maps/Test.unr").is_err());
    let mut dangling = populated_runtime();
    dangling.instances[1].1 = vec![(object("System/Engine.u", 10), StoredValue::Value(Value::Object(9)))];
    assert!(matches!(
        dangling.save_game("Maps/Test.unr"),
        Err(DispatchError::InvalidObjectHandle { handle: 9 })
    ));
}

#[test]
fn snapshot_objects_use_the_lower_case_package_stem() {
    let saved = saved_object(&object("System/Engine.u", 3)).unwrap();
    assert_eq!(saved.package, "engine");
    assert_eq!(saved.export_index, 3);
    let special = saved_object(&object("<host-player>", 0)).unwrap();
    assert_eq!(special.package, "<host-player>");
    assert!(saved_object(&object("System/Engine.u", usize::MAX)).is_err());
}

#[test]
fn struct_fields_are_saved_in_name_order() {
    let runtime = populated_runtime();
    let value = Value::Struct(vec![
        ("Y".to_owned(), Value::Int(2)),
        ("X".to_owned(), Value::Int(1)),
    ]);
    let saved = saved_plain_value(&runtime, &value, &StemTable { entries: Vec::new() }).unwrap();
    match saved {
        SavedValue::Struct(fields) => {
            assert_eq!(fields.iter().map(|(name, _)| name.as_str()).collect::<Vec<_>>(), vec!["X", "Y"]);
        }
        other => panic!("expected a struct, found {other:?}"),
    }
}

#[test]
fn latent_actions_restore_onto_their_targets() {
    let targets = vec![(4, 9)];
    assert_eq!(restore_latent(SavedLatent::TurnTo(4), &targets).unwrap(), LatentAction::TurnTo(9));
    assert!(restore_latent(SavedLatent::TurnTo(5), &targets).is_err());
    assert!(restore_latent(SavedLatent::Sleep(f32::INFINITY.to_bits()), &targets).is_err());
    assert_eq!(
        restore_latent(SavedLatent::Sleep(0.5f32.to_bits()), &targets).unwrap(),
        LatentAction::Sleep(0.5f32.to_bits())
    );
}

fn saved_actor(actor: usize, package: &str) -> SavedActor {
    SavedActor {
        actor,
        object: SavedObject { package: package.to_owned(), export_index: 0 },
        class: SavedObject { package: "Test".to_owned(), export_index: 1 },
        instance: Vec::new(),
        state: None,
        state_revision: 0,
        frame: None,
        timer: None,
        destroyed: false,
        disabled_events: Vec::new(),
    }
}

#[test]
fn legacy_snapshots_omit_transient_fields_for_reconstruction() {
    let transient = || SavedObject { package: "<runtime>".to_owned(), export_index: 9 };
    let field = || SavedObject { package: "Test".to_owned(), export_index: 2 };
    let mut authored = saved_actor(1, "Test");
    authored.instance.push((field(), SavedValue::Object(Some(transient()))));
    authored.frame = Some(SavedFrame {
        state: field(),
        instruction_pointer: 0,
        locals: vec![(0, SavedValue::Object(Some(transient())))],
        latent: SavedLatent::MoveToward(9),
    });
    let mut snapshot = SavedRuntime {
        map: "Maps/Test.unr".to_owned(),
        random_state: 0,
        player_alt_fire_pressed: false,
        actors: vec![authored, saved_actor(9, "<runtime>")],
        object_instances: vec![SavedObjectInstance {
            object: field(),
            class: field(),
            instance: vec![(field(), SavedValue::Object(Some(transient())))],
        }],
        animation_commands: vec![SavedAnimationCommand {
            actor: 9,
            sequence: "Cast".to_owned(),
            relative_rate: 1.0f32.to_bits(),
            tween_time: 0.0f32.to_bits(),
            looping: true,
            tween_only: false,
            root_motion: false,
        }],
        animation_channels: vec![SavedAnimationChannel { actor: 1, root_bone: 0, target: 9 }],
        animating: vec![9],
        player_probe_touching: vec![9],
    };

    discard_transient_actors(&mut snapshot);

    assert_eq!(snapshot.actors.len(), 1);
    assert!(snapshot.actors[0].instance.is_empty());
    let frame = snapshot.actors[0].frame.as_ref().unwrap();
    assert!(matches!(frame.locals[0].1, SavedValue::Object(None)));
    assert!(matches!(frame.latent, SavedLatent::Continue));
    assert!(snapshot.object_instances[0].instance.is_empty());
    assert!(snapshot.animation_commands.is_empty());
    assert!(snapshot.animation_channels.is_empty());
    assert!(snapshot.animating.is_empty());
    assert!(snapshot.player_probe_touching.is_empty());
}

#[test]
fn snapshots_without_run_time_actors_are_kept_whole() {
    let mut snapshot = SavedRuntime {
        map: "Maps/Test.unr".to_owned(),
        random_state: 0,
        player_alt_fire_pressed: false,
        actors: vec![saved_actor(1, "Test")],
        object_instances: Vec::new(),
        animation_commands: Vec::new(),
        animation_channels: vec![SavedAnimationChannel { actor: 1, root_bone: 0, target: 9 }],
        animating: vec![9],
        player_probe_touching: Vec::new(),
    };
    discard_transient_actors(&mut snapshot);
    assert_eq!(snapshot.animating, vec![9]);
    assert_eq!(snapshot.animation_channels.len(), 1);
}

#[test]
fn restoring_a_save_brings_back_the_saved_tables() {
    let mut runtime = populated_runtime();
    let bytes = runtime.save_game("Maps/Test.unr").unwrap();
    runtime.actor_states = vec![(0, None), (1, Some("Other".to_owned())), (2, Some("Spawned".to_owned()))];
    runtime.state_revisions = vec![(0, 9), (2, 4)];
    runtime.destroyed = vec![0, 2];
    runtime.timers = Vec::new();
    runtime.random_state = 99;
    runtime.player_alt_fire_pressed = false;
    runtime.player_space_pressed = true;
    runtime.animating = vec![2];
    runtime.player_probe_touching = Vec::new();
    runtime.object_instances.push((object("Maps/Test.unr", 8), object("System/Engine.u", 3), Vec::new()));
    openhp1_runtime::state::set_event_disabled(&mut runtime.disabled_events, 2, None, "Bump", true);
    openhp1_runtime::state::set_event_disabled(&mut runtime.disabled_events, 1, None, "Touch", true);

    let plan = runtime.restore_game("Maps/Test.unr", &bytes).unwrap();
    assert_eq!(plan.targets, vec![(0, 0), (1, 1)]);

    assert_eq!(
        runtime.actor_states,
        vec![(2, Some("Spawned".to_owned())), (0, Some("Waiting".to_owned())), (1, None)]
    );
    assert_eq!(runtime.state_revisions, vec![(2, 4), (0, 3), (1, 0)]);
    assert_eq!(runtime.destroyed, vec![2, 1]);
    assert_eq!(
        runtime.timers,
        vec![(1, ActorTimer { remaining: 1.5f32.to_bits(), rate: 2.0f32.to_bits(), looping: true })]
    );
    assert_eq!(runtime.random_state, 7);
    assert!(runtime.player_alt_fire_pressed);
    assert!(!runtime.player_space_pressed);
    assert!(runtime.object_instances.is_empty());
    assert!(runtime.state_frames.is_empty());
    let sequences: Vec<(usize, &str)> =
        runtime.animation_commands.iter().map(|(actor, c)| (*actor, c.sequence.as_str())).collect();
    assert_eq!(sequences, vec![(2, "Cast"), (1, "Idle")]);
    assert_eq!(
        runtime.animation_channels,
        vec![(0, vec![AnimationChannel { root_bone: 1, actor: 2 }, AnimationChannel { root_bone: 2, actor: 1 }])]
    );
    assert_eq!(runtime.animating, vec![2, 0, 1]);
    assert_eq!(runtime.player_probe_touching, vec![1]);
    assert_eq!(runtime.next_actor, 3);
    assert!(event_disabled(&runtime.disabled_events, 0, Some("WAITING"), "tick"));
    assert!(event_disabled(&runtime.disabled_events, 0, None, "Bump"));
    assert!(event_disabled(&runtime.disabled_events, 2, None, "bump"));
    assert!(!event_disabled(&runtime.disabled_events, 1, None, "Touch"));
}

#[test]
fn a_plan_naming_an_absent_actor_changes_nothing() {
    let mut runtime = populated_runtime();
    let bytes = runtime.save_game("Maps/Test.unr").unwrap();
    let mut plan: RestorePlan = runtime.plan_restore("Maps/Test.unr", &bytes).unwrap();
    plan.snapshot.player_probe_touching.push(5);
    runtime.random_state = 99;
    assert!(matches!(runtime.apply_restore(&plan), Err(DispatchError::SaveState { .. })));
    assert_eq!(runtime.random_state, 99);
    assert_eq!(runtime.destroyed, vec![1]);
    plan.snapshot.player_probe_touching.pop();
    assert!(runtime.apply_restore(&plan).is_ok());
    assert_eq!(runtime.random_state, 7);
}

#[test]
fn a_restore_needs_a_next_actor_index() {
    let mut runtime = populated_runtime();
    let bytes = runtime.save_game("Maps/Test.unr").unwrap();
    runtime.actor_objects.push((usize::MAX, runtime_actor_id(usize::MAX)));
    runtime.random_state = 99;
    runtime.next_actor = 42;
    assert!(matches!(runtime.restore_game("Maps/Test.unr", &bytes), Err(DispatchError::ObjectLimit)));
    assert_eq!(runtime.random_state, 7);
    assert_eq!(runtime.next_actor, 42);
}

#[test]
fn references_to_run_time_actors_are_cleared_inside_values() {
    let runtime_object = || Some(SavedObject { package: "<runtime>".to_owned(), export_index: 3 });
    let authored = || Some(SavedObject { package: "test".to_owned(), export_index: 3 });
    let mut value = SavedValue::Struct(vec![
        ("A".to_owned(), SavedValue::Object(runtime_object())),
        ("B".to_owned(), SavedValue::Array(vec![SavedValue::Object(authored()), SavedValue::Object(runtime_object())])),
    ]);
    discard_transient_reference(&mut value);
    match value {
        SavedValue::Struct(fields) => {
            assert!(matches!(fields[0].1, SavedValue::Object(None)));
            match &fields[1].1 {
                SavedValue::Array(items) => {
                    assert!(matches!(&items[0], SavedValue::Object(Some(o)) if o.package == "test"));
                    assert!(matches!(items[1], SavedValue::Object(None)));
                }
                other => panic!("expected an array, found {other:?}"),
            }
        }
        other => panic!("expected a struct, found {other:?}"),
    }
}

#[test]
fn a_save_restores_onto_another_runtime_with_the_same_authored_actors() {
    let source = populated_runtime();
    let bytes = source.save_game("Maps/Test.unr").unwrap();
    let mut other = populated_runtime();
    other.actor_states = vec![(0, Some("Elsewhere".to_owned())), (2, Some("Spawned".to_owned()))];
    other.state_revisions = vec![(0, 40)];
    other.timers = Vec::new();
    other.destroyed = Vec::new();
    other.random_state = 99;
    other.player_alt_fire_pressed = false;
    let plan = other.restore_game("maps/test.unr", &bytes).unwrap();
    assert_eq!(plan.targets, vec![(0, 0), (1, 1)]);
    let state = |runtime: &ScriptRuntime, actor: usize| {
        runtime.actor_states.iter().find(|entry| entry.0 == actor).and_then(|entry| entry.1.clone())
    };
    assert_eq!(state(&other, 0), state(&source, 0));
    assert_eq!(state(&other, 2).as_deref(), Some("Spawned"));
    let revision = |runtime: &ScriptRuntime, actor: usize| {
        runtime.state_revisions.iter().find(|entry| entry.0 == actor).map(|entry| entry.1).unwrap_or(0)
    };
    assert_eq!(revision(&other, 0), revision(&source, 0));
    assert_eq!(other.destroyed.contains(&1), source.destroyed.contains(&1));
    let timer = |runtime: &ScriptRuntime, actor: usize| {
        runtime.timers.iter().find(|entry| entry.0 == actor).map(|entry| entry.1)
    };
    assert_eq!(timer(&other, 1), timer(&source, 1));
    assert_eq!(other.random_state, source.random_state);
    assert_eq!(other.player_alt_fire_pressed, source.player_alt_fire_pressed);
}

#[test]
fn a_refused_map_names_both_maps() {
    let mut runtime = populated_runtime();
    let bytes = runtime.save_game("Maps/Test.unr").unwrap();
    match runtime.restore_game("Maps/Other.unr", &bytes) {
        Err(DispatchError::SaveState { message }) => {
            assert_eq!(message, "snapshot is for `Maps/Test.unr`, not `Maps/Other.unr`")
        }
        _ => panic!("a save for another map was accepted"),
    }
}

#[test]
fn package_names_are_file_stems() {
    assert_eq!(saved_object(&object("Maps/Test.unr", 1)).unwrap().package, "test");
    assert_eq!(saved_object(&object("Sounds.uax", 1)).unwrap().package, "sounds");
    assert_eq!(saved_object(&object("System/.Hidden", 1)).unwrap().package, ".hidden");
    assert_eq!(saved_object(&object("System/Archive.tar.u/", 1)).unwrap().package, "archive.tar");
    assert!(matches!(saved_object(&object("System/..", 1)), Err(DispatchError::SaveState { .. })));
}

#[test]
fn a_restore_names_the_animations_and_state_code_to_replay() {
    let mut runtime = populated_runtime();
    let bytes = runtime.save_game("Maps/Test.unr").unwrap();
    let plan = runtime.restore_game("Maps/Test.unr", &bytes).unwrap();
    assert_eq!(replayed_animation_actors(&plan), vec![1]);
    assert_eq!(resumed_frame_actors(&plan), vec![(0, 0)]);
    let frame = plan.snapshot.actors[0].frame.as_ref().unwrap();
    assert_eq!(restore_latent(frame.latent, &plan.targets).unwrap(), LatentAction::MoveToward(1));
}

#[test]
fn a_save_does_not_depend_on_the_order_of_the_actor_tables() {
    let runtime = populated_runtime();
    let bytes = runtime.save_game("Maps/Test.unr").unwrap();
    let mut reordered = populated_runtime();
    reordered.actor_objects.reverse();
    reordered.actor_classes.reverse();
    reordered.instances.reverse();
    reordered.actor_states.reverse();
    reordered.state_revisions.reverse();
    reordered.state_frames.reverse();
    reordered.timers.reverse();
    assert_eq!(reordered.save_game("Maps/Test.unr").unwrap(), bytes);
}

fn resolved_for(saved: &SavedObject) -> ObjectId {
    let package = match saved.package.as_str() {
        "engine" => "System/Engine.u",
        "test" => "Maps/Test.unr",
        other => other,
    };
    object(package, saved.export_index as usize)
}

fn collect_value(value: &SavedValue, table: &mut Vec<(SavedObject, ObjectId, i32)>) {
    match value {
        SavedValue::Object(Some(o)) => {
            table.push((SavedObject { package: o.package.clone(), export_index: o.export_index }, resolved_for(o), 5))
        }
        SavedValue::Struct(fields) => fields.iter().for_each(|(_, v)| collect_value(v, table)),
        SavedValue::Array(values) => values.iter().for_each(|v| collect_value(v, table)),
        _ => {}
    }
}

fn collect_object(o: &SavedObject, table: &mut Vec<(SavedObject, ObjectId, i32)>) {
    table.push((SavedObject { package: o.package.clone(), export_index: o.export_index }, resolved_for(o), 5));
}

fn resolution_table(plan: &RestorePlan) -> Vec<(SavedObject, ObjectId, i32)> {
    let mut table = Vec::new();
    for actor in &plan.snapshot.actors {
        for (field, value) in &actor.instance {
            collect_object(field, &mut table);
            collect_value(value, &mut table);
        }
        if let Some(frame) = &actor.frame {
            collect_object(&frame.state, &mut table);
            frame.locals.iter().for_each(|(_, v)| collect_value(v, &mut table));
        }
    }
    for saved in &plan.snapshot.object_instances {
        collect_object(&saved.object, &mut table);
        collect_object(&saved.class, &mut table);
        for (field, value) in &saved.instance {
            collect_object(field, &mut table);
            collect_value(value, &mut table);
        }
    }
    table
}

#[test]
fn a_restore_writes_back_the_resolved_fields_and_state_code() {
    let mut source = populated_runtime();
    source.instances[0].1 = vec![(object("System/Engine.u", 30), StoredValue::Value(Value::Int(99)))];
    let bytes = source.save_game("Maps/Test.unr").unwrap();
    let mut other = populated_runtime();
    other.instances[0].1 = vec![(object("System/Engine.u", 30), StoredValue::Value(Value::Int(-1)))];
    let plan = other.restore_game("maps/test.unr", &bytes).unwrap();
    let saved = &plan.snapshot.actors[0];
    assert_eq!(saved.instance.len(), 1);
    assert!(matches!(saved.instance[0].1, SavedValue::Int(99)));
    let table = resolution_table(&plan);
    other.finish_restore(&plan, &table).unwrap();
    let instance = &other.instances.iter().find(|entry| entry.0 == 0).unwrap().1;
    assert_eq!(instance.len(), 1);
    assert_eq!(instance[0].0, object("System/Engine.u", 30));
    assert_eq!(instance[0].1, StoredValue::Value(Value::Int(99)));
    let restored = &other.state_frames.iter().find(|entry| entry.0 == 0).unwrap().1;
    assert_eq!(restored.latent, LatentAction::MoveToward(1));
    assert_eq!(restored.instruction_pointer, Some(12));
    assert_eq!(restored.state, object("System/Engine.u", 40));
}

#[test]
fn a_restore_is_not_finished_without_the_resolved_objects() {
    let source = populated_runtime();
    let bytes = source.save_game("Maps/Test.unr").unwrap();
    let mut other = populated_runtime();
    let plan = other.restore_game("Maps/Test.unr", &bytes).unwrap();
    let before = other.instances.len();
    let frames = other.state_frames.len();
    assert!(matches!(other.finish_restore(&plan, &Vec::new()), Err(DispatchError::SaveState { .. })));
    assert_eq!(other.instances.len(), before);
    assert_eq!(other.state_frames.len(), frames);
}

#[test]
fn a_save_names_platform_dependent_stems_from_its_table() {
    let mut runtime = populated_runtime();
    runtime.actor_objects[0].1 = object("C:\\Maps\\Test.unr", 4);
    let stems = StemTable { entries: vec![("C:\\Maps\\Test.unr".to_owned(), "Test".to_owned())] };
    let bytes = runtime.save_game_with("Maps/Test.unr", &stems).unwrap();
    let plan = populated_runtime().plan_restore("Maps/Test.unr", &bytes).unwrap();
    assert_eq!(plan.snapshot.actors[0].object.package, "test");
    let missing = StemTable { entries: Vec::new() };
    assert!(matches!(runtime.save_game_with("Maps/Test.unr", &missing), Err(DispatchError::SaveState { .. })));
}

#[test]
fn a_save_refuses_an_authored_timer_that_is_not_finite() {
    let mut runtime = populated_runtime();
    runtime.timers[0].1.remaining = f32::INFINITY.to_bits();
    assert!(runtime.save_game("Maps/Test.unr").is_err());
}

#[test]
fn a_save_starts_with_the_header_for_its_map() {
    let bytes = populated_runtime().save_game("Maps/Test.unr").unwrap();
    let map = "Maps/Test.unr".as_bytes();
    assert_eq!(&bytes[6..10], &(map.len() as u32).to_le_bytes());
    assert_eq!(&bytes[10..10 + map.len()], map);
}
