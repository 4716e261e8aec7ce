use openhp1_runtime::kinematics::{clamp_pawn_pitch, rotators_equal, turn_to_fixed, turn_to_shortest};

#[test]
fn rotator_turning_wraps_like_ue1() {
    assert_eq!(turn_to_shortest(65_000, 100, 200), 65_200);
    assert_eq!(turn_to_shortest(100, 65_000, 200), 65_436);
    assert_eq!(turn_to_fixed(65_000, 100, 1_000), 100);
    assert_eq!(turn_to_fixed(100, 65_000, -1_000), 65_000);
    assert!(rotators_equal([-1, 0, 65_536], [65_535, 0, 0]));
}

#[test]
fn pawn_pitch_uses_ue1_rotation_rate_bounds() {
    assert_eq!(clamp_pawn_pitch(0, 3_072), 0);
    assert_eq!(clamp_pawn_pitch(1_000, 3_072), 1_000);
    assert_eq!(clamp_pawn_pitch(-1_000, 3_072), 64_536);
    assert_eq!(clamp_pawn_pitch(16_384, 3_072), 3_072);
    assert_eq!(clamp_pawn_pitch(-16_384, 3_072), 62_464);
}

#[test]
fn turning_stops_at_the_desired_angle_when_close() {
    assert_eq!(turn_to_shortest(1_000, 1_100, 200), 1_100);
    assert_eq!(turn_to_shortest(1_000, 900, 200), 900);
}

#[test]
fn rotators_differing_in_a_component_are_not_equal() {
    assert!(!rotators_equal([0, 0, 1], [0, 0, 0]));
    assert!(rotators_equal([65_536, -65_536, 0], [0, 0, 0]));
}
