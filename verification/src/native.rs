//! Argument decoding and small computations of native script functions.
use vstd::prelude::*;
use crate::save::wire::finite_bits;
use crate::text::{decimal_text, eq_ignore_ascii_case, same_ignoring_ascii_case, signed_text};
use crate::value::Value;

verus! {

/// The index of the first bone whose name matches `name` ignoring ASCII
/// case, or 0 when there is none (or no skeleton, or the index does not fit
/// an `i32`).
pub fn bone_number(bones: Option<&[String]>, name: &str) -> (r: i32)
    ensures
        r == match bones {
            Some(b) => match first_match(b@, name@) {
                Some(i) => if i <= i32::MAX { i as i32 } else { 0 },
                None => 0,
            },
            None => 0,
        },
{
    match bones {
        Some(names) => {
            let mut i: usize = 0;
            while i < names.len()
                invariant
                    bones == Some(names),
                    0 <= i <= names@.len(),
                    forall|j: int| 0 <= j < i ==> !same_ignoring_ascii_case(#[trigger] names@[j]@, name@),
                decreases names@.len() - i,
            {
                if eq_ignore_ascii_case(names[i].as_str(), name) {
                    proof {
                        lemma_first_match(names@, name@, i as int);
                    }
                    return if i <= i32::MAX as usize { i as i32 } else { 0 };
                }
                i = i + 1;
            }
            proof {
                lemma_no_match(names@, name@);
            }
            0
        },
        None => 0,
    }
}

/// The index of the first name in `names` equal to `name` ignoring ASCII case.
pub open spec fn first_match(names: Seq<String>, name: Seq<char>) -> Option<int>
    decreases names.len(),
{
    if names.len() == 0 {
        None
    } else if same_ignoring_ascii_case(names[0]@, name) {
        Some(0)
    } else {
        match first_match(names.skip(1), name) {
            Some(i) => Some(i + 1),
            None => None,
        }
    }
}

/// A bone is found by the first name that matches ignoring ASCII case: the
/// index found names a matching bone and none before it matches; when none
/// is found no name matches.
pub proof fn lemma_first_match_is_first(names: Seq<String>, name: Seq<char>)
    ensures
        match first_match(names, name) {
            Some(i) => 0 <= i < names.len() && same_ignoring_ascii_case(names[i]@, name) && forall|j: int|
                0 <= j < i ==> !same_ignoring_ascii_case(#[trigger] names[j]@, name),
            None => forall|j: int| 0 <= j < names.len() ==> !same_ignoring_ascii_case(#[trigger] names[j]@, name),
        },
    decreases names.len(),
{
    if names.len() > 0 && !same_ignoring_ascii_case(names[0]@, name) {
        let rest = names.skip(1);
        lemma_first_match_is_first(rest, name);
        assert forall|j: int| 0 < j < names.len() implies names[j] == #[trigger] rest[j - 1] by {}
        match first_match(rest, name) {
            Some(i) => {
                assert(names[i + 1] == rest[i]);
                assert forall|j: int| 0 <= j < i + 1 implies !same_ignoring_ascii_case(#[trigger] names[j]@, name) by {
                    if j > 0 {
                        assert(names[j] == rest[j - 1]);
                    }
                }
            },
            None => {
                assert forall|j: int| 0 <= j < names.len() implies !same_ignoring_ascii_case(#[trigger] names[j]@, name) by {
                    if j > 0 {
                        assert(names[j] == rest[j - 1]);
                    }
                }
            },
        }
    }
}

proof fn lemma_first_match(names: Seq<String>, name: Seq<char>, i: int)
    requires
        0 <= i < names.len(),
        same_ignoring_ascii_case(names[i]@, name),
        forall|j: int| 0 <= j < i ==> !same_ignoring_ascii_case(#[trigger] names[j]@, name),
    ensures
        first_match(names, name) == Some(i),
    decreases i,
{
    if i > 0 {
        assert forall|j: int| 0 <= j < i - 1 implies !same_ignoring_ascii_case(
            #[trigger] names.skip(1)[j]@,
            name,
        ) by {
            assert(names.skip(1)[j] == names[j + 1]);
        }
        assert(!same_ignoring_ascii_case(names[0]@, name));
        lemma_first_match(names.skip(1), name, i - 1);
    }
}

proof fn lemma_no_match(names: Seq<String>, name: Seq<char>)
    requires
        forall|j: int| 0 <= j < names.len() ==> !same_ignoring_ascii_case(#[trigger] names[j]@, name),
    ensures
        first_match(names, name) is None,
    decreases names.len(),
{
    if names.len() > 0 {
        assert forall|j: int| 0 <= j < names.len() - 1 implies !same_ignoring_ascii_case(
            #[trigger] names.skip(1)[j]@,
            name,
        ) by {
            assert(names.skip(1)[j] == names[j + 1]);
        }
        assert(!same_ignoring_ascii_case(names[0]@, name));
        lemma_no_match(names.skip(1), name);
    }
}

/// The flags a `SetCollision` call updates: each of at most three arguments
/// is a boolean to set or `None` to keep; anything else is refused.
pub fn collision_updates(arguments: &[Value]) -> (r: Result<[Option<bool>; 3], String>)
    ensures
        r is Ok <==> arguments@.len() <= 3 && forall|i: int|
            0 <= i < arguments@.len() ==> (#[trigger] arguments@[i] is Bool || arguments@[i] is Null),
        r matches Ok(u) ==> forall|i: int|
            0 <= i < 3 ==> #[trigger] u[i] == if i < arguments@.len() && arguments@[i] is Bool {
                Some(arguments@[i]->Bool_0)
            } else {
                None
            },
{
    if arguments.len() > 3 {
        return Err("SetCollision expects at most 3 arguments".to_owned());
    }
    let mut updates: [Option<bool>; 3] = [None, None, None];
    let mut i: usize = 0;
    while i < arguments.len()
        invariant
            arguments@.len() <= 3,
            0 <= i <= arguments@.len(),
            forall|j: int| 0 <= j < i ==> (#[trigger] arguments@[j] is Bool || arguments@[j] is Null),
            forall|j: int|
                0 <= j < 3 ==> #[trigger] updates[j] == if j < i && arguments@[j] is Bool {
                    Some(arguments@[j]->Bool_0)
                } else {
                    None
                },
        decreases arguments@.len() - i,
    {
        match &arguments[i] {
            Value::Bool(value) => {
                updates[i] = Some(*value);
            },
            Value::Null => {},
            _ => {
                return Err("SetCollision flag is not a bool".to_owned());
            },
        }
        i = i + 1;
    }
    Ok(updates)
}

/// The message and optional tag of a `Log` call: a string, then optionally a
/// tag, where a `None` tag counts as absent.
pub fn log_arguments(arguments: &[Value]) -> (r: Result<(&str, Option<&Value>), String>)
    ensures
        r is Ok <==> (arguments@.len() == 1 || arguments@.len() == 2) && arguments@[0] is String,
        r matches Ok((message, tag)) ==> message@ == arguments@[0]->String_0@ && tag == if arguments@.len()
            == 2 && !(arguments@[1] is Null) {
            Some(&arguments@[1])
        } else {
            None
        },
{
    if arguments.len() == 1 || arguments.len() == 2 {
        if let Value::String(message) = &arguments[0] {
            if arguments.len() == 2 {
                if let Value::Null = &arguments[1] {
                    return Ok((message.as_str(), None));
                }
                return Ok((message.as_str(), Some(&arguments[1])));
            }
            return Ok((message.as_str(), None));
        }
    }
    Err("Log expects a string and optional name".to_owned())
}

/// An object handle, with `None` read as the null handle 0.
pub fn object_value(value: &Value) -> (r: Option<i32>)
    ensures
        r == match value {
            Value::Null => Some(0i32),
            Value::Object(handle) => Some(*handle),
            _ => None,
        },
{
    match value {
        Value::Null => Some(0),
        Value::Object(handle) => Some(*handle),
        _ => None,
    }
}

/// A byte argument, if that is what is given.
pub fn optional_byte(value: Option<&Value>) -> (r: Option<u8>)
    ensures
        r == match value {
            Some(Value::Byte(b)) => Some(*b),
            _ => None,
        },
{
    match value {
        Some(Value::Byte(b)) => Some(*b),
        _ => None,
    }
}

/// A float argument's bits, if that is what is given.
pub fn optional_float(value: Option<&Value>) -> (r: Option<u32>)
    ensures
        r == match value {
            Some(Value::Float(f)) => Some(*f),
            _ => None,
        },
{
    match value {
        Some(Value::Float(f)) => Some(*f),
        _ => None,
    }
}

/// A boolean argument, or `default` when something else is given.
pub fn optional_bool(value: Option<&Value>, default: bool) -> (r: bool)
    ensures
        r == match value {
            Some(Value::Bool(b)) => *b,
            _ => default,
        },
{
    match value {
        Some(Value::Bool(b)) => *b,
        _ => default,
    }
}

/// The decoded arguments of a sound-playing native; volume, radius and pitch
/// are single-precision bits.
#[derive(Debug, PartialEq, Eq)]
pub struct SoundArguments {
    pub sound: Option<i32>,
    pub slot: Option<u8>,
    pub volume: Option<u32>,
    pub no_override: bool,
    pub radius: Option<u32>,
    pub pitch: Option<u32>,
}

/// The kind an optional sound argument must have at position `i` after the
/// sound: a byte slot, float volume, bool no-override, float radius, float
/// pitch; `None` always passes and a float must be finite.
pub open spec fn sound_argument_ok(i: int, v: Value) -> bool {
    match v {
        Value::Null => true,
        Value::Byte(_) => i == 0,
        Value::Bool(_) => i == 2,
        Value::Float(f) => (i == 1 || i == 3 || i == 4) && finite_bits(f),
        _ => false,
    }
}

pub open spec fn spec_optional_float(v: Option<Value>) -> Option<u32> {
    match v {
        Some(Value::Float(f)) => Some(f),
        _ => None,
    }
}

pub open spec fn arg_at(arguments: Seq<Value>, i: int) -> Option<Value> {
    if 0 <= i < arguments.len() {
        Some(arguments[i])
    } else {
        None
    }
}

/// Decodes the arguments of `PlaySound` and its kin: a sound object (or
/// `None`), then up to five optional arguments.
pub fn sound_arguments(function: &str, arguments: &[Value]) -> (r: Result<SoundArguments, String>)
    ensures
        r is Ok <==> {
            &&& 1 <= arguments@.len() <= 6
            &&& (arguments@[0] is Object || arguments@[0] is Null)
            &&& forall|i: int|
                1 <= i < arguments@.len() ==> sound_argument_ok(i - 1, #[trigger] arguments@[i])
        },
        r matches Ok(a) ==> {
            &&& a.sound == match arguments@[0] {
                Value::Object(h) => if h == 0 {
                    None
                } else {
                    Some(h)
                },
                _ => None,
            }
            &&& a.slot == match arg_at(arguments@, 1) {
                Some(Value::Byte(b)) => Some(b),
                _ => None,
            }
            &&& a.volume == spec_optional_float(arg_at(arguments@, 2))
            &&& a.no_override == match arg_at(arguments@, 3) {
                Some(Value::Bool(b)) => b,
                _ => false,
            }
            &&& a.radius == spec_optional_float(arg_at(arguments@, 4))
            &&& a.pitch == spec_optional_float(arg_at(arguments@, 5))
        },
{
    if arguments.len() == 0 {
        return Err("the sound native expects a sound".to_owned());
    }
    let sound_ok = match &arguments[0] {
        Value::Object(_) | Value::Null => true,
        _ => false,
    };
    if !sound_ok || arguments.len() > 6 {
        return Err("the sound native expects a sound and at most 5 optional arguments".to_owned());
    }
    let mut i: usize = 1;
    while i < arguments.len()
        invariant
            1 <= i <= arguments@.len() <= 6,
            forall|j: int| 1 <= j < i ==> sound_argument_ok(j - 1, #[trigger] arguments@[j]),
        decreases arguments@.len() - i,
    {
        let position = i - 1;
        let valid = match &arguments[i] {
            Value::Null => true,
            Value::Byte(_) => position == 0,
            Value::Bool(_) => position == 2,
            Value::Float(bits) => (position == 1 || position == 3 || position == 4) && *bits
                & 0x7f80_0000 != 0x7f80_0000,
            _ => false,
        };
        if !valid {
            return Err("a sound native argument has the wrong kind".to_owned());
        }
        i = i + 1;
    }
    let sound = match &arguments[0] {
        Value::Object(handle) => if *handle == 0 {
            None
        } else {
            Some(*handle)
        },
        _ => None,
    };
    Ok(
        SoundArguments {
            sound,
            slot: optional_byte(if arguments.len() > 1 { Some(&arguments[1]) } else { None }),
            volume: optional_float(if arguments.len() > 2 { Some(&arguments[2]) } else { None }),
            no_override: optional_bool(
                if arguments.len() > 3 { Some(&arguments[3]) } else { None },
                false,
            ),
            radius: optional_float(if arguments.len() > 4 { Some(&arguments[4]) } else { None }),
            pitch: optional_float(if arguments.len() > 5 { Some(&arguments[5]) } else { None }),
        },
    )
}

/// The decoded arguments of `ModifySound`; the value is single-precision
/// bits.
#[derive(Debug, PartialEq, Eq)]
pub struct ModifySoundArguments {
    pub parameter: u8,
    pub value: u32,
    pub sound: Option<i32>,
    pub slot: u8,
}

/// The decoded arguments of `ModifySound`: a byte parameter and a float
/// value, then an optional sound (`None` or handle 0 for any) and an
/// optional slot (0 when absent); nothing for other arguments.
pub open spec fn modify_arguments_of(arguments: Seq<Value>) -> Option<ModifySoundArguments> {
    if 2 <= arguments.len() <= 4 && arguments[0] is Byte && arguments[1] is Float && (arguments.len() > 2
        ==> (arguments[2] is Null || arguments[2] is Object)) && (arguments.len() > 3 ==> (arguments[3] is Null
        || arguments[3] is Byte)) {
        Some(
            ModifySoundArguments {
                parameter: arguments[0]->Byte_0,
                value: arguments[1]->Float_0,
                sound: match arg_at(arguments, 2) {
                    Some(Value::Object(h)) => if h == 0 {
                        None
                    } else {
                        Some(h)
                    },
                    _ => None,
                },
                slot: match arg_at(arguments, 3) {
                    Some(Value::Byte(b)) => b,
                    _ => 0,
                },
            },
        )
    } else {
        None
    }
}

/// Decodes `ModifySound(parameter, value, optional sound, optional slot)`.
pub fn modify_sound_arguments(arguments: &[Value]) -> (r: Result<ModifySoundArguments, String>)
    ensures
        match r {
            Ok(a) => modify_arguments_of(arguments@) == Some(a),
            Err(_) => modify_arguments_of(arguments@) is None,
        },
        r is Ok <==> {
            &&& 2 <= arguments@.len() <= 4
            &&& arguments@[0] is Byte
            &&& arguments@[1] is Float
            &&& (arguments@.len() > 2 ==> (arguments@[2] is Null || arguments@[2] is Object))
            &&& (arguments@.len() > 3 ==> (arguments@[3] is Null || arguments@[3] is Byte))
        },
        r matches Ok(a) ==> {
            &&& a.parameter == arguments@[0]->Byte_0
            &&& a.value == arguments@[1]->Float_0
            &&& a.sound == match arg_at(arguments@, 2) {
                Some(Value::Object(h)) => if h == 0 {
                    None
                } else {
                    Some(h)
                },
                _ => None,
            }
            &&& a.slot == match arg_at(arguments@, 3) {
                Some(Value::Byte(b)) => b,
                _ => 0,
            }
        },
{
    if arguments.len() < 2 {
        return Err(
            "ModifySound expects parameter, value, optional sound, and optional slot".to_owned(),
        );
    }
    let parameter = match &arguments[0] {
        Value::Byte(p) => *p,
        _ => {
            return Err(
                "ModifySound expects parameter, value, optional sound, and optional slot".to_owned(),
            );
        },
    };
    let value = match &arguments[1] {
        Value::Float(v) => *v,
        _ => {
            return Err(
                "ModifySound expects parameter, value, optional sound, and optional slot".to_owned(),
            );
        },
    };
    if arguments.len() > 4 {
        return Err("ModifySound has too many arguments".to_owned());
    }
    let sound = if arguments.len() > 2 {
        match &arguments[2] {
            Value::Null => None,
            Value::Object(handle) => if *handle == 0 {
                None
            } else {
                Some(*handle)
            },
            _ => {
                return Err("ModifySound sound is not an object".to_owned());
            },
        }
    } else {
        None
    };
    let slot = if arguments.len() > 3 {
        match &arguments[3] {
            Value::Null => 0,
            Value::Byte(slot) => *slot,
            _ => {
                return Err("ModifySound slot is not a byte".to_owned());
            },
        }
    } else {
        0
    };
    Ok(ModifySoundArguments { parameter, value, sound, slot })
}

/// One step of the runtime's xorshift generator.
pub open spec fn xorshift(state: u32) -> u32 {
    let a = state ^ (state << 13u32);
    let b = a ^ (a >> 17u32);
    b ^ (b << 5u32)
}

/// Advances the generator and returns its new state.
pub fn next_random(state: &mut u32) -> (r: u32)
    ensures
        r == xorshift(*old(state)),
        *final(state) == r,
{
    *state = *state ^ (*state << 13u32);
    *state = *state ^ (*state >> 17u32);
    *state = *state ^ (*state << 5u32);
    *state
}

/// The number of outcomes of `random_int(max)`: `max - 1` saturated and
/// clamped to `0..=32767`, plus one.
pub open spec fn random_range(max: i32) -> int {
    let below = if max == i32::MIN { i32::MIN as int } else { max - 1 };
    (if below < 0 { 0 } else if below > 32767 { 32767 } else { below }) + 1
}

/// A number in `0..random_range(max)`: the next generator output scaled to
/// that range.
pub fn random_int(state: &mut u32, max: i32) -> (r: i32)
    ensures
        *final(state) == xorshift(*old(state)),
        r as int == (*final(state) as int * random_range(max)) / 0x1_0000_0000,
        r as int == rand_outcome(*final(state), max),
        0 <= r < random_range(max),
{
    let below: i32 = if max == i32::MIN { i32::MIN } else { max - 1 };
    let clamped: i32 = if below < 0 { 0 } else if below > 32767 { 32767 } else { below };
    let range: u32 = clamped as u32 + 1;
    let n = next_random(state);
    proof {
        assert((n as int) * (range as int) <= 0xffff_ffff * 32768) by (nonlinear_arith)
            requires 0 <= n <= 0xffff_ffff, 0 <= range <= 32768;
    }
    let product: u64 = (n as u64) * (range as u64);
    proof {
        assert(product >> 32u64 == product / 0x1_0000_0000u64) by (bit_vector);
        assert((n as int * range as int) / 0x1_0000_0000 < range as int) by (nonlinear_arith)
            requires n < 0x1_0000_0000, range > 0;
        assert((n as int * range as int) / 0x1_0000_0000 >= 0) by (nonlinear_arith)
            requires n >= 0, range > 0;
    }
    (product >> 32u64) as i32
}

/// What `Rand(max)` gives when the generator's next output is `n`.
pub open spec fn rand_outcome(n: u32, max: i32) -> int {
    (n as int * random_range(max)) / 0x1_0000_0000
}

/// `Rand(max)` has `max` outcomes for a `max` from 1 to 32768, one outcome
/// (always 0) for a smaller `max`, and 32768 for a larger one; whatever the
/// generator gives, the result is one of them.
pub proof fn lemma_random_range(max: i32, n: u32)
    ensures
        1 <= max <= 32768 ==> random_range(max) == max,
        max <= 1 ==> random_range(max) == 1,
        max > 32768 ==> random_range(max) == 32768,
        0 <= (n as int * random_range(max)) / 0x1_0000_0000 < random_range(max),
{
    let m = random_range(max);
    assert(0 <= (n as int * m) / 0x1_0000_0000 < m) by (nonlinear_arith)
        requires
            0 <= n < 0x1_0000_0000,
            1 <= m <= 32768,
    ;
}

/// Every outcome of `Rand(max)`, for a `max` from 1 to 32768, comes from
/// some generator output: each of `0..max` is reached.
pub proof fn lemma_random_int_reaches(max: i32, k: int)
    requires
        1 <= max <= 32768,
        0 <= k < max,
    ensures
        exists|n: u32| #[trigger] rand_outcome(n, max) == k,
{
    let big: int = 0x1_0000_0000;
    let m = max as int;
    let x = k * big + m - 1;
    let q = x / m;
    let rem = x % m;
    vstd::arithmetic::div_mod::lemma_fundamental_div_mod(x, m);
    vstd::arithmetic::div_mod::lemma_mod_bound(x, m);
    assert(x == m * q + rem);
    assert(q * m >= k * big && q * m < (k + 1) * big) by (nonlinear_arith)
        requires
            x == m * q + rem,
            0 <= rem < m,
            x == k * big + m - 1,
            1 <= m <= 32768,
            big == 0x1_0000_0000,
    ;
    assert(0 <= q < big) by (nonlinear_arith)
        requires
            q * m >= k * big,
            q * m < (k + 1) * big,
            0 <= k < m,
            1 <= m,
            big == 0x1_0000_0000,
    ;
    let y = q * m;
    vstd::arithmetic::div_mod::lemma_fundamental_div_mod(y, big);
    vstd::arithmetic::div_mod::lemma_mod_bound(y, big);
    assert(y / big == k);
    let w = q as u32;
    assert(w as int == q);
    assert(random_range(max) == m);
    assert(rand_outcome(w, max) == k);
}

/// A random rotator: yaw, then pitch, then roll (only when `roll` is set)
/// each take the top 16 bits of the next generator output; returned as
/// pitch, yaw, roll.
pub fn random_rotator(state: &mut u32, roll: bool) -> (r: [i32; 3])
    ensures
        ({
            let s1 = xorshift(*old(state));
            let s2 = xorshift(s1);
            let s3 = xorshift(s2);
            &&& r[0] == (s2 >> 16u32) as i32
            &&& r[1] == (s1 >> 16u32) as i32
            &&& r[2] == if roll { (s3 >> 16u32) as i32 } else { 0 }
            &&& *final(state) == if roll { s3 } else { s2 }
        }),
{
    let yaw = (next_random(state) >> 16u32) as i32;
    let pitch = (next_random(state) >> 16u32) as i32;
    let roll = if roll { (next_random(state) >> 16u32) as i32 } else { 0 };
    [pitch, yaw, roll]
}

/// The loudness of a `MakeNoise` call: one finite float, as its bits.
pub fn noise_loudness(arguments: &[Value]) -> (r: Result<u32, String>)
    ensures
        match r {
            Ok(bits) => arguments@.len() == 1 && arguments@[0] == Value::Float(bits) && finite_bits(bits),
            Err(_) => !(arguments@.len() == 1 && arguments@[0] is Float && finite_bits(arguments@[0]->Float_0)),
        },
{
    if arguments.len() != 1 {
        return Err("MakeNoise expects one float".to_owned());
    }
    match &arguments[0] {
        Value::Float(bits) => {
            if *bits & 0x7f80_0000 == 0x7f80_0000 {
                Err("MakeNoise loudness is not finite".to_owned())
            } else {
                Ok(*bits)
            }
        },
        _ => Err("MakeNoise expects one float".to_owned()),
    }
}

/// The pose of the first bone whose name matches `bone` ignoring ASCII
/// case, as single-precision bits; the origin when there is no such bone or
/// no pose for it.
pub fn bone_position(bones: Option<&[String]>, positions: Option<&[[u32; 3]]>, bone: &str) -> (r: [u32; 3])
    ensures
        r == match (bones, positions) {
            (Some(b), Some(p)) => match first_match(b@, bone@) {
                Some(i) => if i < p@.len() { p@[i] } else { [0u32, 0u32, 0u32] },
                None => [0u32, 0u32, 0u32],
            },
            _ => [0u32, 0u32, 0u32],
        },
{
    match (bones, positions) {
        (Some(names), Some(poses)) => {
            let mut i: usize = 0;
            while i < names.len()
                invariant
                    bones == Some(names),
                    positions == Some(poses),
                    0 <= i <= names@.len(),
                    forall|j: int| 0 <= j < i ==> !same_ignoring_ascii_case(#[trigger] names@[j]@, bone@),
                decreases names@.len() - i,
            {
                if eq_ignore_ascii_case(names[i].as_str(), bone) {
                    proof {
                        lemma_first_match(names@, bone@, i as int);
                    }
                    return if i < poses.len() { poses[i] } else { [0, 0, 0] };
                }
                i = i + 1;
            }
            proof {
                lemma_no_match(names@, bone@);
            }
            [0, 0, 0]
        },
        _ => [0, 0, 0],
    }
}

/// Checks a `TraceTexture` call: a start and an end vector, both finite,
/// trace flags, and optionally a decal flag (a boolean or `None`). No
/// surface texture is known, so a valid call gives no object.
pub fn trace_texture(arguments: &[Value]) -> (r: Result<Value, String>)
    ensures
        match r {
            Ok(v) => v == Value::Object(0),
            Err(_) => true,
        },
        r is Ok <==> {
            &&& 3 <= arguments@.len() <= 4
            &&& arguments@[0] is Vector && arguments@[1] is Vector && arguments@[2] is Int
            &&& (arguments@.len() == 4 ==> (arguments@[3] is Bool || arguments@[3] is Null))
            &&& finite_bits(arguments@[0]->Vector_0[0]) && finite_bits(arguments@[0]->Vector_0[1])
                && finite_bits(arguments@[0]->Vector_0[2])
            &&& finite_bits(arguments@[1]->Vector_0[0]) && finite_bits(arguments@[1]->Vector_0[1])
                && finite_bits(arguments@[1]->Vector_0[2])
        },
{
    if arguments.len() < 3 {
        return Err("TraceTexture expects start, end, flags, and an optional decal flag".to_owned());
    }
    let (start, end) = match (&arguments[0], &arguments[1], &arguments[2]) {
        (Value::Vector(start), Value::Vector(end), Value::Int(_)) => (start, end),
        _ => {
            return Err("TraceTexture expects start, end, flags, and an optional decal flag".to_owned());
        },
    };
    if arguments.len() > 4 {
        return Err("TraceTexture arguments are invalid".to_owned());
    }
    if arguments.len() == 4 {
        match &arguments[3] {
            Value::Bool(_) | Value::Null => {},
            _ => {
                return Err("TraceTexture arguments are invalid".to_owned());
            },
        }
    }
    if start[0] & 0x7f80_0000 == 0x7f80_0000 || start[1] & 0x7f80_0000 == 0x7f80_0000 || start[2]
        & 0x7f80_0000 == 0x7f80_0000 || end[0] & 0x7f80_0000 == 0x7f80_0000 || end[1] & 0x7f80_0000
        == 0x7f80_0000 || end[2] & 0x7f80_0000 == 0x7f80_0000 {
        return Err("TraceTexture arguments are invalid".to_owned());
    }
    Ok(Value::Object(0))
}

/// The text of a name argument: a name index picks from the package's name
/// table, name text is itself, and `None` reads as "None"; nothing for an
/// index outside the table or a value of another kind.
pub open spec fn name_text(names: Seq<String>, value: Value) -> Option<Seq<char>> {
    match value {
        Value::Name(i) => if 0 <= i < names.len() {
            Some(names[i as int]@)
        } else {
            None
        },
        Value::NameText(s) => Some(s@),
        Value::Null => Some("None"@),
        _ => None,
    }
}

/// A name argument as text, looking name indices up in the package's name
/// table.
pub fn runtime_name(names: &[String], value: &Value) -> (r: Result<String, String>)
    ensures
        match r {
            Ok(s) => name_text(names@, *value) == Some(s@),
            Err(_) => name_text(names@, *value) is None,
        },
{
    match value {
        Value::Name(index) => {
            if *index >= 0 && (*index as usize) < names.len() {
                Ok(names[*index as usize].clone())
            } else {
                Err("invalid name index ".to_owned().concat(signed_text(*index).as_str()))
            }
        },
        Value::NameText(name) => Ok(name.clone()),
        Value::Null => {
            let text = "None".to_owned();
            proof {
                reveal_strlit("None");
            }
            Ok(text)
        },
        other => Err("expected name, found ".to_owned().concat(other.kind())),
    }
}

/// Whether an animation native asks for root motion: its optional argument
/// at `root_index` names the root "Move" (ignoring ASCII case); absent or
/// `None` asks for none. Nothing when more arguments follow it or the
/// argument is no name.
pub open spec fn root_motion_of(names: Seq<String>, arguments: Seq<Value>, root_index: int) -> Option<bool> {
    if arguments.len() > root_index + 1 {
        None
    } else if root_index < arguments.len() && arguments[root_index] != Value::Null {
        match name_text(names, arguments[root_index]) {
            Some(t) => Some(same_ignoring_ascii_case(t, "Move"@)),
            None => None,
        }
    } else {
        Some(false)
    }
}

/// Decodes the optional root-motion argument of the animation native
/// `name`.
pub fn animation_root_motion(name: &str, names: &[String], arguments: &[Value], root_index: usize) -> (r: Result<
    bool,
    String,
>)
    ensures
        match r {
            Ok(b) => root_motion_of(names@, arguments@, root_index as int) == Some(b),
            Err(_) => root_motion_of(names@, arguments@, root_index as int) is None,
        },
{
    if arguments.len() > 0 && arguments.len() - 1 > root_index {
        let allowed: u64 = root_index as u64 + 1;
        return Err(
            name.to_owned().concat(" expects at most ").concat(decimal_text(allowed).as_str()).concat(
                " optional arguments, found ",
            ).concat(decimal_text(arguments.len() as u64).as_str()),
        );
    }
    if root_index < arguments.len() {
        match &arguments[root_index] {
            Value::Null => Ok(false),
            value => {
                let root = runtime_name(names, value)?;
                let motion = eq_ignore_ascii_case(root.as_str(), "Move");
                Ok(motion)
            },
        }
    } else {
        Ok(false)
    }
}

} // verus!
