use openhp1_runtime::scalar::{null_numeric_value, scalar_native, ScalarNative, ScalarOutcome};
use openhp1_runtime::value::Value;

fn scalar(index: u16, arguments: &[Value]) -> Result<Value, String> {
    match scalar_native(index, arguments) {
        Ok(ScalarOutcome::Value(value)) => Ok(value),
        Ok(ScalarOutcome::Float { native, .. }) => panic!("{native:?} computes in floating point"),
        Err(error) => Err(error),
    }
}

#[test]
fn integer_division_is_checked() {
    assert_eq!(scalar(0x91, &[Value::Int(7), Value::Int(2)]), Ok(Value::Int(3)));
    assert!(scalar(0x91, &[Value::Int(1), Value::Int(0)]).is_err());
    assert_eq!(
        scalar(0x9c, &[Value::Int(0x1_ffff), Value::Int(0xffff)]),
        Ok(Value::Int(0xffff))
    );
}

#[test]
fn integer_left_shift_executes_through_native_dispatch_with_masked_count() {
    assert_eq!(scalar(0x94, &[Value::Int(1), Value::Int(31)]), Ok(Value::Int(i32::MIN)));
    assert_eq!(scalar(0x94, &[Value::Int(1), Value::Int(32)]), Ok(Value::Int(1)));
    assert_eq!(scalar(0x94, &[Value::Int(1), Value::Int(-1)]), Ok(Value::Int(i32::MIN)));
}

#[test]
fn integer_right_shift_executes_through_native_dispatch_with_sign_extension() {
    assert_eq!(scalar(0x95, &[Value::Int(i32::MIN), Value::Int(31)]), Ok(Value::Int(-1)));
    assert_eq!(scalar(0x95, &[Value::Int(i32::MIN), Value::Int(32)]), Ok(Value::Int(i32::MIN)));
    assert_eq!(scalar(0x95, &[Value::Int(-1), Value::Int(-1)]), Ok(Value::Int(-1)));
}

#[test]
fn integer_logical_right_shift_fills_with_zeros() {
    assert_eq!(scalar(0xc4, &[Value::Int(i32::MIN), Value::Int(31)]), Ok(Value::Int(1)));
    assert_eq!(scalar(0xc4, &[Value::Int(i32::MIN), Value::Int(32)]), Ok(Value::Int(i32::MIN)));
    assert_eq!(scalar(0xc4, &[Value::Int(-1), Value::Int(-1)]), Ok(Value::Int(1)));
}

#[test]
fn scalar_natives_distinguish_bad_operands_from_unknown_indices() {
    assert_eq!(
        scalar(0x97, &[Value::Byte(1), Value::Int(0)]),
        Err("Greater_IntInt does not accept operands (byte, int)".to_owned())
    );
    assert_eq!(
        scalar(0xffff, &[]),
        Err("native 0xffff is not implemented".to_owned())
    );
}

#[test]
fn unknown_small_indices_are_named_with_three_digits() {
    assert_eq!(scalar(0x71, &[]), Err("native 0x071 is not implemented".to_owned()));
    assert_eq!(ScalarNative::try_from(0x71), Err(()));
    assert_eq!(ScalarNative::try_from(0x70), Ok(ScalarNative::Concat_StrStr));
}

#[test]
fn integer_and_bool_comparisons_read_none_as_zero_or_false() {
    assert_eq!(scalar(0x98, &[Value::Null, Value::Int(0)]), Ok(Value::Bool(true)));
    assert_eq!(scalar(0x83, &[Value::Bool(true), Value::Bool(false)]), Ok(Value::Bool(true)));
    assert_eq!(scalar(0xf2, &[Value::Bool(true), Value::Bool(true)]), Ok(Value::Bool(true)));
    assert_eq!(scalar(0xf3, &[Value::Bool(true), Value::Bool(false)]), Ok(Value::Bool(true)));
    assert_eq!(scalar(0xf2, &[Value::Null, Value::Bool(false)]), Ok(Value::Bool(true)));
    assert_eq!(scalar(0x98, &[Value::Int(2), Value::Int(2)]), Ok(Value::Bool(true)));
    assert_eq!(scalar(0x99, &[Value::Int(3), Value::Int(2)]), Ok(Value::Bool(true)));
}

#[test]
fn float_natives_are_handed_to_the_host() {
    assert_eq!(
        scalar_native(0xb2, &[Value::Float(2.0f32.to_bits()), Value::Null]),
        Ok(ScalarOutcome::Float { native: ScalarNative::LessEqual_FloatFloat, null_as_zero: true })
    );
    assert_eq!(
        scalar_native(0xbd, &[Value::Float(1.0f32.to_bits())]),
        Ok(ScalarOutcome::Float { native: ScalarNative::Tan, null_as_zero: false })
    );
}

#[test]
fn observed_string_natives_match_unreal_semantics() {
    assert_eq!(
        scalar(
            0x70,
            &[Value::String("Harry".to_owned()), Value::String(" Potter".to_owned())]
        ),
        Ok(Value::String("Harry Potter".to_owned()))
    );
    assert_eq!(
        scalar(0xa8, &[Value::String("Hello".to_owned()), Value::String("world".to_owned())]),
        Ok(Value::String("Hello world".to_owned()))
    );
    assert_eq!(
        scalar(0x7f, &[Value::String("Hogwarts".to_owned()), Value::Int(3), Value::Int(4)]),
        Ok(Value::String("wart".to_owned()))
    );
    assert_eq!(
        scalar(0xea, &[Value::String("Hogwarts".to_owned()), Value::Int(4)]),
        Ok(Value::String("arts".to_owned()))
    );
    assert_eq!(scalar(0xec, &[Value::Int(0x141)]), Ok(Value::String("A".to_owned())));
    assert_eq!(
        scalar(0xed, &[Value::String("Alohomora".to_owned())]),
        Ok(Value::Int(65))
    );
}

#[test]
fn string_search_and_case_natives() {
    assert_eq!(
        scalar(0x7e, &[Value::String("Gryffindor".to_owned()), Value::String("ffin".to_owned())]),
        Ok(Value::Int(3))
    );
    assert_eq!(
        scalar(0x7e, &[Value::String("Gryffindor".to_owned()), Value::String("Slyth".to_owned())]),
        Ok(Value::Int(-1))
    );
    assert_eq!(scalar(0x7d, &[Value::String("Hédwig".to_owned())]), Ok(Value::Int(6)));
    assert_eq!(scalar(0xeb, &[Value::String("owl".to_owned())]), Ok(Value::String("OWL".to_owned())));
    assert_eq!(
        scalar(0x7a, &[Value::String("Quidditch".to_owned()), Value::String("QUIDDITCH".to_owned())]),
        Ok(Value::Bool(true))
    );
    assert_eq!(
        scalar(0x80, &[Value::String("Snitch".to_owned()), Value::Int(-2)]),
        Ok(Value::String(String::new()))
    );
    assert_eq!(
        scalar(0x7f, &[Value::String("Snitch".to_owned()), Value::Int(2), Value::Null]),
        Ok(Value::String("itch".to_owned()))
    );
}

#[test]
fn rotator_addition_wraps_each_ue1_component() {
    assert_eq!(
        scalar(
            0x13c,
            &[Value::Rotator([i32::MAX, 2, -4]), Value::Rotator([1, 3, -5])]
        ),
        Ok(Value::Rotator([i32::MIN, 5, -9]))
    );
    assert_eq!(
        scalar(
            0x13d,
            &[Value::Rotator([i32::MIN, i32::MAX, 1]), Value::Rotator([1, -1, 2])]
        ),
        Ok(Value::Rotator([i32::MAX, i32::MIN, -1]))
    );
}

#[test]
fn integer_clamp_min_max_and_negation() {
    assert_eq!(
        scalar(0xfb, &[Value::Int(12), Value::Int(-5), Value::Int(10)]),
        Ok(Value::Int(10))
    );
    assert_eq!(scalar(0xf9, &[Value::Int(4), Value::Null]), Ok(Value::Int(0)));
    assert_eq!(scalar(0xfa, &[Value::Int(4), Value::Int(9)]), Ok(Value::Int(9)));
    assert_eq!(scalar(0x8f, &[Value::Int(i32::MIN)]), Ok(Value::Int(i32::MIN)));
    assert_eq!(scalar(0x8f, &[Value::Int(5)]), Ok(Value::Int(-5)));
    assert_eq!(scalar(0x91, &[Value::Int(-7), Value::Int(2)]), Ok(Value::Int(-3)));
    assert!(scalar(0x91, &[Value::Int(i32::MIN), Value::Int(-1)]).is_err());
}

#[test]
fn object_and_boolean_logic() {
    assert_eq!(scalar(0x72, &[Value::Null, Value::Object(0)]), Ok(Value::Bool(true)));
    assert_eq!(scalar(0x77, &[Value::Object(3), Value::Object(4)]), Ok(Value::Bool(true)));
    assert_eq!(scalar(0x82, &[Value::Bool(false), Value::Int(1)]), Ok(Value::Bool(false)));
    assert!(scalar(0x82, &[Value::Bool(true), Value::Int(1)]).is_err());
    assert_eq!(scalar(0x84, &[Value::Bool(true), Value::Int(1)]), Ok(Value::Bool(true)));
    assert_eq!(scalar(0x81, &[Value::Null]), Ok(Value::Bool(true)));
}

#[test]
fn null_operands_read_as_zero_of_the_native_family() {
    assert_eq!(null_numeric_value(ScalarNative::Add_IntInt), Some(Value::Int(0)));
    assert_eq!(null_numeric_value(ScalarNative::Chr), Some(Value::Int(0)));
    assert_eq!(null_numeric_value(ScalarNative::Sqrt), Some(Value::Float(0)));
    assert_eq!(null_numeric_value(ScalarNative::Concat_StrStr), None);
}
