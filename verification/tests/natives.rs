use openhp1_runtime::native::{
    bone_number, bone_position, collision_updates, log_arguments, modify_sound_arguments,
    noise_loudness, random_int, random_rotator, sound_arguments, trace_texture, runtime_name,
    animation_root_motion,
    ModifySoundArguments, SoundArguments,
};
use openhp1_runtime::value::Value;

#[test]
fn bone_numbers_follow_case_insensitive_skeletal_order() {
    let bones = vec!["Root".to_owned(), "Head".to_owned()];
    assert_eq!(bone_number(Some(&bones), "head"), 1);
    assert_eq!(bone_number(Some(&bones), "missing"), 0);
}

#[test]
fn bone_number_without_a_skeleton_is_zero() {
    assert_eq!(bone_number(None, "Root"), 0);
}

#[test]
fn collision_updates_preserve_omitted_flags() {
    assert_eq!(
        collision_updates(&[Value::Bool(true), Value::Null]),
        Ok([Some(true), None, None])
    );
    assert!(collision_updates(&[Value::Float(1.0f32.to_bits())]).is_err());
}

#[test]
fn collision_updates_refuse_more_than_three_flags() {
    assert!(collision_updates(&[
        Value::Bool(true),
        Value::Bool(true),
        Value::Bool(true),
        Value::Bool(false)
    ])
    .is_err());
    assert_eq!(
        collision_updates(&[Value::Null, Value::Bool(false), Value::Bool(true)]),
        Ok([None, Some(false), Some(true)])
    );
}

#[test]
fn log_arguments_preserve_optional_tags() {
    assert_eq!(
        log_arguments(&[Value::String("hello".to_owned()), Value::Name(7)]),
        Ok(("hello", Some(&Value::Name(7))))
    );
    assert!(log_arguments(&[Value::Int(1)]).is_err());
    assert!(log_arguments(&[Value::String("hello".to_owned()), Value::Null, Value::Null]).is_err());
}

#[test]
fn log_arguments_read_a_none_tag_as_absent() {
    assert_eq!(
        log_arguments(&[Value::String("hello".to_owned()), Value::Null]),
        Ok(("hello", None))
    );
}

#[test]
fn sound_natives_validate_calls() {
    assert!(sound_arguments(
        "PlayOwnedSound",
        &[
            Value::Object(1),
            Value::Byte(0),
            Value::Float(1.0f32.to_bits()),
            Value::Bool(false),
        ],
    )
    .is_ok());
    assert!(sound_arguments("PlayOwnedSound", &[Value::Int(1)]).is_err());
}

#[test]
fn omitted_sound_arguments_remain_authored_defaults() {
    assert_eq!(
        sound_arguments("PlaySound", &[Value::Object(1)]).unwrap(),
        SoundArguments {
            sound: Some(1),
            slot: None,
            volume: None,
            no_override: false,
            radius: None,
            pitch: None,
        }
    );
}

#[test]
fn modify_sound_uses_the_shipped_parameter_value_sound_slot_order() {
    assert_eq!(
        modify_sound_arguments(&[Value::Byte(2), Value::Float(0.75f32.to_bits())]).unwrap(),
        ModifySoundArguments {
            parameter: 2,
            value: 0.75f32.to_bits(),
            sound: None,
            slot: 0,
        }
    );
    assert_eq!(
        modify_sound_arguments(&[
            Value::Byte(1),
            Value::Float(0.5f32.to_bits()),
            Value::Object(7),
            Value::Byte(3),
        ])
        .unwrap(),
        ModifySoundArguments {
            parameter: 1,
            value: 0.5f32.to_bits(),
            sound: Some(7),
            slot: 3,
        }
    );
}

#[test]
fn random_integers_stay_below_the_bound() {
    let mut state: u32 = 0x6d2b_79f5;
    for _ in 0..100 {
        assert!((0..7).contains(&random_int(&mut state, 7)));
    }
    assert_eq!(random_int(&mut state, 0), 0);
}

#[test]
fn random_sequences_are_deterministic() {
    let mut first: u32 = 0x6d2b_79f5;
    let mut second: u32 = 0x6d2b_79f5;
    assert_eq!(random_rotator(&mut first, true), random_rotator(&mut second, true));
    assert_eq!(first, second);
    let mut third: u32 = 0x6d2b_79f5;
    let rotator = random_rotator(&mut third, false);
    assert_eq!(rotator[2], 0);
}

fn bits(v: [f32; 3]) -> [u32; 3] {
    [v[0].to_bits(), v[1].to_bits(), v[2].to_bits()]
}

#[test]
fn bone_positions_use_the_current_case_insensitive_skeletal_pose() {
    let bones = vec!["Root".to_owned(), "Head".to_owned()];
    let positions = [bits([10.0, 20.0, 30.0]), bits([40.0, 50.0, 60.0])];
    assert_eq!(
        bone_position(Some(&bones), Some(&positions), "head"),
        bits([40.0, 50.0, 60.0])
    );
    assert_eq!(
        bone_position(Some(&bones), Some(&positions), "missing"),
        bits([0.0; 3])
    );
}

#[test]
fn noise_loudness_must_be_a_finite_float() {
    assert_eq!(noise_loudness(&[Value::Float(0.5f32.to_bits())]), Ok(0.5f32.to_bits()));
    assert!(noise_loudness(&[Value::Float(f32::NAN.to_bits())]).is_err());
    assert!(noise_loudness(&[]).is_err());
}

#[test]
fn trace_texture_checks_its_arguments() {
    let start = Value::Vector(bits([0.0, 0.0, 0.0]));
    let end = Value::Vector(bits([1.0, 2.0, 3.0]));
    assert_eq!(
        trace_texture(&[Value::Vector(bits([0.0; 3])), Value::Vector(bits([1.0, 2.0, 3.0])), Value::Int(0)]),
        Ok(Value::Object(0))
    );
    assert_eq!(
        trace_texture(&[start, end, Value::Int(1), Value::Bool(true)]),
        Ok(Value::Object(0))
    );
    assert!(trace_texture(&[
        Value::Vector(bits([f32::INFINITY, 0.0, 0.0])),
        Value::Vector(bits([0.0; 3])),
        Value::Int(0)
    ])
    .is_err());
    assert!(trace_texture(&[Value::Vector(bits([0.0; 3])), Value::Int(0)]).is_err());
}

#[test]
fn name_arguments_read_the_package_name_table() {
    let names = vec!["None".to_owned(), "Move".to_owned(), "Idle".to_owned()];
    assert_eq!(runtime_name(&names, &Value::Name(2)).unwrap(), "Idle");
    assert_eq!(runtime_name(&names, &Value::NameText("Walk".to_owned())).unwrap(), "Walk");
    assert_eq!(runtime_name(&names, &Value::Null).unwrap(), "None");
    assert_eq!(runtime_name(&names, &Value::Name(3)).unwrap_err(), "invalid name index 3");
    assert_eq!(runtime_name(&names, &Value::Name(-12)).unwrap_err(), "invalid name index -12");
    assert_eq!(runtime_name(&names, &Value::Int(1)).unwrap_err(), "expected name, found int");
}

#[test]
fn root_motion_is_asked_for_by_naming_move() {
    let names = vec!["None".to_owned(), "MOVE".to_owned(), "Idle".to_owned()];
    assert!(animation_root_motion("PlayAnim", &names, &[Value::Name(0), Value::Name(1)], 1).unwrap());
    assert!(!animation_root_motion("PlayAnim", &names, &[Value::Name(0), Value::Name(2)], 1).unwrap());
    assert!(!animation_root_motion("PlayAnim", &names, &[Value::Name(0), Value::Null], 1).unwrap());
    assert!(!animation_root_motion("PlayAnim", &names, &[Value::Name(0)], 1).unwrap());
    assert!(animation_root_motion("PlayAnim", &names, &[Value::NameText("move".to_owned())], 0).unwrap());
    assert_eq!(
        animation_root_motion("PlayAnim", &names, &[Value::Null, Value::Null, Value::Null], 1).unwrap_err(),
        "PlayAnim expects at most 2 optional arguments, found 3"
    );
    assert!(animation_root_motion("PlayAnim", &names, &[Value::Name(9)], 0).is_err());
}
