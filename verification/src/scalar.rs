//! The scalar natives of the script VM: their bytecode indices and what
//! they compute on integers, booleans, strings, objects and rotators.
use vstd::prelude::*;
use vstd::utf8::encode_utf8;
use crate::text::{char_string, eq_ignore_ascii_case, lower, same_ignoring_ascii_case, str_equal};
use crate::native::object_value;
use crate::value::{Value, kind_name, truth_of};

verus! {

/// A scalar native function of the script VM.
#[allow(non_camel_case_types)]
#[derive(Clone, Copy, Debug, PartialEq, Eq, Structural)]
pub enum ScalarNative {
    Concat_StrStr,
    At_StrStr,
    EqualEqual_ObjectObject,
    NotEqual_ObjectObject,
    EqualEqual_StrStr,
    NotEqual_StrStr,
    ComplementEqual_StrStr,
    Len,
    InStr,
    Mid,
    Left,
    Right,
    Caps,
    Not_PreBool,
    AndAnd_BoolBool,
    XorXor_BoolBool,
    OrOr_BoolBool,
    Subtract_PreInt,
    Multiply_IntInt,
    Divide_IntInt,
    Add_IntInt,
    Subtract_IntInt,
    LessLess_IntInt,
    GreaterGreater_IntInt,
    GreaterGreaterGreater_IntInt,
    Less_IntInt,
    Greater_IntInt,
    LessEqual_IntInt,
    GreaterEqual_IntInt,
    EqualEqual_IntInt,
    NotEqual_IntInt,
    And_IntInt,
    Subtract_PreFloat,
    Multiply_FloatFloat,
    Divide_FloatFloat,
    Percent_FloatFloat,
    Add_FloatFloat,
    Subtract_FloatFloat,
    Less_FloatFloat,
    Greater_FloatFloat,
    LessEqual_FloatFloat,
    GreaterEqual_FloatFloat,
    EqualEqual_FloatFloat,
    NotEqual_FloatFloat,
    Abs,
    Sin,
    Cos,
    Tan,
    Sqrt,
    Subtract_PreVector,
    Multiply_VectorFloat,
    Multiply_FloatVector,
    Multiply_VectorVector,
    Divide_VectorFloat,
    Add_VectorVector,
    Subtract_VectorVector,
    LessLess_VectorRotator,
    GreaterGreater_VectorRotator,
    EqualEqual_VectorVector,
    NotEqual_VectorVector,
    Dot_VectorVector,
    Cross_VectorVector,
    VSize,
    Normal,
    MirrorVectorByNormal,
    FMin,
    FMax,
    FClamp,
    Min,
    Max,
    Clamp,
    EqualEqual_BoolBool,
    NotEqual_BoolBool,
    Chr,
    Asc,
    Multiply_RotatorFloat,
    Multiply_FloatRotator,
    Divide_RotatorFloat,
    Add_RotatorRotator,
    Subtract_RotatorRotator,
}

/// The scalar native a bytecode native index names.
pub open spec fn native_of(index: u16) -> Option<ScalarNative> {
    match index {
        0x70 => Some(ScalarNative::Concat_StrStr),
        0xa8 => Some(ScalarNative::At_StrStr),
        0x72 => Some(ScalarNative::EqualEqual_ObjectObject),
        0x77 => Some(ScalarNative::NotEqual_ObjectObject),
        0x7a => Some(ScalarNative::EqualEqual_StrStr),
        0x7b => Some(ScalarNative::NotEqual_StrStr),
        0x7c => Some(ScalarNative::ComplementEqual_StrStr),
        0x7d => Some(ScalarNative::Len),
        0x7e => Some(ScalarNative::InStr),
        0x7f => Some(ScalarNative::Mid),
        0x80 => Some(ScalarNative::Left),
        0x81 => Some(ScalarNative::Not_PreBool),
        0x82 => Some(ScalarNative::AndAnd_BoolBool),
        0x83 => Some(ScalarNative::XorXor_BoolBool),
        0x84 => Some(ScalarNative::OrOr_BoolBool),
        0x8f => Some(ScalarNative::Subtract_PreInt),
        0x90 => Some(ScalarNative::Multiply_IntInt),
        0x91 => Some(ScalarNative::Divide_IntInt),
        0x92 => Some(ScalarNative::Add_IntInt),
        0x93 => Some(ScalarNative::Subtract_IntInt),
        0x94 => Some(ScalarNative::LessLess_IntInt),
        0x95 => Some(ScalarNative::GreaterGreater_IntInt),
        0xc4 => Some(ScalarNative::GreaterGreaterGreater_IntInt),
        0x96 => Some(ScalarNative::Less_IntInt),
        0x97 => Some(ScalarNative::Greater_IntInt),
        0x98 => Some(ScalarNative::LessEqual_IntInt),
        0x99 => Some(ScalarNative::GreaterEqual_IntInt),
        0x9a => Some(ScalarNative::EqualEqual_IntInt),
        0x9b => Some(ScalarNative::NotEqual_IntInt),
        0x9c => Some(ScalarNative::And_IntInt),
        0xa9 => Some(ScalarNative::Subtract_PreFloat),
        0xab => Some(ScalarNative::Multiply_FloatFloat),
        0xac => Some(ScalarNative::Divide_FloatFloat),
        0xad => Some(ScalarNative::Percent_FloatFloat),
        0xae => Some(ScalarNative::Add_FloatFloat),
        0xaf => Some(ScalarNative::Subtract_FloatFloat),
        0xb0 => Some(ScalarNative::Less_FloatFloat),
        0xb1 => Some(ScalarNative::Greater_FloatFloat),
        0xb2 => Some(ScalarNative::LessEqual_FloatFloat),
        0xb3 => Some(ScalarNative::GreaterEqual_FloatFloat),
        0xb4 => Some(ScalarNative::EqualEqual_FloatFloat),
        0xb5 => Some(ScalarNative::NotEqual_FloatFloat),
        0xba => Some(ScalarNative::Abs),
        0xbb => Some(ScalarNative::Sin),
        0xbc => Some(ScalarNative::Cos),
        0xbd => Some(ScalarNative::Tan),
        0xc1 => Some(ScalarNative::Sqrt),
        0xd3 => Some(ScalarNative::Subtract_PreVector),
        0xd4 => Some(ScalarNative::Multiply_VectorFloat),
        0xd5 => Some(ScalarNative::Multiply_FloatVector),
        0x128 => Some(ScalarNative::Multiply_VectorVector),
        0xd6 => Some(ScalarNative::Divide_VectorFloat),
        0xd7 => Some(ScalarNative::Add_VectorVector),
        0xd8 => Some(ScalarNative::Subtract_VectorVector),
        0x113 => Some(ScalarNative::LessLess_VectorRotator),
        0x114 => Some(ScalarNative::GreaterGreater_VectorRotator),
        0xd9 => Some(ScalarNative::EqualEqual_VectorVector),
        0xda => Some(ScalarNative::NotEqual_VectorVector),
        0xdb => Some(ScalarNative::Dot_VectorVector),
        0xdc => Some(ScalarNative::Cross_VectorVector),
        0xe1 => Some(ScalarNative::VSize),
        0xe2 => Some(ScalarNative::Normal),
        0x12c => Some(ScalarNative::MirrorVectorByNormal),
        0xea => Some(ScalarNative::Right),
        0xeb => Some(ScalarNative::Caps),
        0xec => Some(ScalarNative::Chr),
        0xed => Some(ScalarNative::Asc),
        0xf2 => Some(ScalarNative::EqualEqual_BoolBool),
        0xf3 => Some(ScalarNative::NotEqual_BoolBool),
        0xf4 => Some(ScalarNative::FMin),
        0xf5 => Some(ScalarNative::FMax),
        0xf6 => Some(ScalarNative::FClamp),
        0xf9 => Some(ScalarNative::Min),
        0xfa => Some(ScalarNative::Max),
        0xfb => Some(ScalarNative::Clamp),
        0x11f => Some(ScalarNative::Multiply_RotatorFloat),
        0x120 => Some(ScalarNative::Multiply_FloatRotator),
        0x121 => Some(ScalarNative::Divide_RotatorFloat),
        0x13c => Some(ScalarNative::Add_RotatorRotator),
        0x13d => Some(ScalarNative::Subtract_RotatorRotator),
        _ => None,
    }
}

impl ScalarNative {
    /// The scalar native a bytecode native index names.
    pub fn try_from(index: u16) -> (r: Result<ScalarNative, ()>)
        ensures
            match r {
                Ok(n) => native_of(index) == Some(n),
                Err(_) => native_of(index) is None,
            },
    {
        match index {
            0x70 => Ok(ScalarNative::Concat_StrStr),
            0xa8 => Ok(ScalarNative::At_StrStr),
            0x72 => Ok(ScalarNative::EqualEqual_ObjectObject),
            0x77 => Ok(ScalarNative::NotEqual_ObjectObject),
            0x7a => Ok(ScalarNative::EqualEqual_StrStr),
            0x7b => Ok(ScalarNative::NotEqual_StrStr),
            0x7c => Ok(ScalarNative::ComplementEqual_StrStr),
            0x7d => Ok(ScalarNative::Len),
            0x7e => Ok(ScalarNative::InStr),
            0x7f => Ok(ScalarNative::Mid),
            0x80 => Ok(ScalarNative::Left),
            0x81 => Ok(ScalarNative::Not_PreBool),
            0x82 => Ok(ScalarNative::AndAnd_BoolBool),
            0x83 => Ok(ScalarNative::XorXor_BoolBool),
            0x84 => Ok(ScalarNative::OrOr_BoolBool),
            0x8f => Ok(ScalarNative::Subtract_PreInt),
            0x90 => Ok(ScalarNative::Multiply_IntInt),
            0x91 => Ok(ScalarNative::Divide_IntInt),
            0x92 => Ok(ScalarNative::Add_IntInt),
            0x93 => Ok(ScalarNative::Subtract_IntInt),
            0x94 => Ok(ScalarNative::LessLess_IntInt),
            0x95 => Ok(ScalarNative::GreaterGreater_IntInt),
            0xc4 => Ok(ScalarNative::GreaterGreaterGreater_IntInt),
            0x96 => Ok(ScalarNative::Less_IntInt),
            0x97 => Ok(ScalarNative::Greater_IntInt),
            0x98 => Ok(ScalarNative::LessEqual_IntInt),
            0x99 => Ok(ScalarNative::GreaterEqual_IntInt),
            0x9a => Ok(ScalarNative::EqualEqual_IntInt),
            0x9b => Ok(ScalarNative::NotEqual_IntInt),
            0x9c => Ok(ScalarNative::And_IntInt),
            0xa9 => Ok(ScalarNative::Subtract_PreFloat),
            0xab => Ok(ScalarNative::Multiply_FloatFloat),
            0xac => Ok(ScalarNative::Divide_FloatFloat),
            0xad => Ok(ScalarNative::Percent_FloatFloat),
            0xae => Ok(ScalarNative::Add_FloatFloat),
            0xaf => Ok(ScalarNative::Subtract_FloatFloat),
            0xb0 => Ok(ScalarNative::Less_FloatFloat),
            0xb1 => Ok(ScalarNative::Greater_FloatFloat),
            0xb2 => Ok(ScalarNative::LessEqual_FloatFloat),
            0xb3 => Ok(ScalarNative::GreaterEqual_FloatFloat),
            0xb4 => Ok(ScalarNative::EqualEqual_FloatFloat),
            0xb5 => Ok(ScalarNative::NotEqual_FloatFloat),
            0xba => Ok(ScalarNative::Abs),
            0xbb => Ok(ScalarNative::Sin),
            0xbc => Ok(ScalarNative::Cos),
            0xbd => Ok(ScalarNative::Tan),
            0xc1 => Ok(ScalarNative::Sqrt),
            0xd3 => Ok(ScalarNative::Subtract_PreVector),
            0xd4 => Ok(ScalarNative::Multiply_VectorFloat),
            0xd5 => Ok(ScalarNative::Multiply_FloatVector),
            0x128 => Ok(ScalarNative::Multiply_VectorVector),
            0xd6 => Ok(ScalarNative::Divide_VectorFloat),
            0xd7 => Ok(ScalarNative::Add_VectorVector),
            0xd8 => Ok(ScalarNative::Subtract_VectorVector),
            0x113 => Ok(ScalarNative::LessLess_VectorRotator),
            0x114 => Ok(ScalarNative::GreaterGreater_VectorRotator),
            0xd9 => Ok(ScalarNative::EqualEqual_VectorVector),
            0xda => Ok(ScalarNative::NotEqual_VectorVector),
            0xdb => Ok(ScalarNative::Dot_VectorVector),
            0xdc => Ok(ScalarNative::Cross_VectorVector),
            0xe1 => Ok(ScalarNative::VSize),
            0xe2 => Ok(ScalarNative::Normal),
            0x12c => Ok(ScalarNative::MirrorVectorByNormal),
            0xea => Ok(ScalarNative::Right),
            0xeb => Ok(ScalarNative::Caps),
            0xec => Ok(ScalarNative::Chr),
            0xed => Ok(ScalarNative::Asc),
            0xf2 => Ok(ScalarNative::EqualEqual_BoolBool),
            0xf3 => Ok(ScalarNative::NotEqual_BoolBool),
            0xf4 => Ok(ScalarNative::FMin),
            0xf5 => Ok(ScalarNative::FMax),
            0xf6 => Ok(ScalarNative::FClamp),
            0xf9 => Ok(ScalarNative::Min),
            0xfa => Ok(ScalarNative::Max),
            0xfb => Ok(ScalarNative::Clamp),
            0x11f => Ok(ScalarNative::Multiply_RotatorFloat),
            0x120 => Ok(ScalarNative::Multiply_FloatRotator),
            0x121 => Ok(ScalarNative::Divide_RotatorFloat),
            0x13c => Ok(ScalarNative::Add_RotatorRotator),
            0x13d => Ok(ScalarNative::Subtract_RotatorRotator),
            _ => Err(()),
        }
    }
}

/// Integer natives, which read a `None` operand as 0.
pub open spec fn int_zero(n: ScalarNative) -> bool {
    match n {
        ScalarNative::Subtract_PreInt | ScalarNative::Multiply_IntInt | ScalarNative::Divide_IntInt
        | ScalarNative::Add_IntInt | ScalarNative::Subtract_IntInt | ScalarNative::LessLess_IntInt
        | ScalarNative::GreaterGreaterGreater_IntInt | ScalarNative::Less_IntInt
        | ScalarNative::Greater_IntInt | ScalarNative::LessEqual_IntInt
        | ScalarNative::GreaterEqual_IntInt | ScalarNative::EqualEqual_IntInt
        | ScalarNative::NotEqual_IntInt | ScalarNative::And_IntInt | ScalarNative::Min
        | ScalarNative::Max | ScalarNative::Clamp | ScalarNative::Chr => true,
        _ => false,
    }
}

/// Float natives, which read a `None` operand as 0.0.
pub open spec fn float_zero(n: ScalarNative) -> bool {
    match n {
        ScalarNative::Subtract_PreFloat | ScalarNative::Multiply_FloatFloat
        | ScalarNative::Divide_FloatFloat | ScalarNative::Add_FloatFloat
        | ScalarNative::Subtract_FloatFloat | ScalarNative::Less_FloatFloat
        | ScalarNative::Greater_FloatFloat | ScalarNative::LessEqual_FloatFloat
        | ScalarNative::GreaterEqual_FloatFloat | ScalarNative::EqualEqual_FloatFloat
        | ScalarNative::NotEqual_FloatFloat | ScalarNative::Abs | ScalarNative::Sqrt
        | ScalarNative::FMin | ScalarNative::FMax | ScalarNative::FClamp => true,
        _ => false,
    }
}

/// The value a native reads a `None` operand as, if it reads one as zero.
pub fn null_numeric_value(native: ScalarNative) -> (r: Option<Value>)
    ensures
        int_zero(native) ==> r == Some(Value::Int(0)),
        float_zero(native) ==> r == Some(Value::Float(0)),
        !int_zero(native) && !float_zero(native) ==> r is None,
{
    match native {
        ScalarNative::Subtract_PreInt | ScalarNative::Multiply_IntInt | ScalarNative::Divide_IntInt
        | ScalarNative::Add_IntInt | ScalarNative::Subtract_IntInt | ScalarNative::LessLess_IntInt
        | ScalarNative::GreaterGreaterGreater_IntInt | ScalarNative::Less_IntInt
        | ScalarNative::Greater_IntInt | ScalarNative::LessEqual_IntInt
        | ScalarNative::GreaterEqual_IntInt | ScalarNative::EqualEqual_IntInt
        | ScalarNative::NotEqual_IntInt | ScalarNative::And_IntInt | ScalarNative::Min
        | ScalarNative::Max | ScalarNative::Clamp | ScalarNative::Chr => Some(Value::Int(0)),
        ScalarNative::Subtract_PreFloat | ScalarNative::Multiply_FloatFloat
        | ScalarNative::Divide_FloatFloat | ScalarNative::Add_FloatFloat
        | ScalarNative::Subtract_FloatFloat | ScalarNative::Less_FloatFloat
        | ScalarNative::Greater_FloatFloat | ScalarNative::LessEqual_FloatFloat
        | ScalarNative::GreaterEqual_FloatFloat | ScalarNative::EqualEqual_FloatFloat
        | ScalarNative::NotEqual_FloatFloat | ScalarNative::Abs | ScalarNative::Sqrt
        | ScalarNative::FMin | ScalarNative::FMax | ScalarNative::FClamp => Some(Value::Float(0)),
        _ => None,
    }
}

/// Natives that compute in single precision; the script host evaluates
/// them.
pub open spec fn float_native(n: ScalarNative) -> bool {
    match n {
        ScalarNative::Subtract_PreFloat | ScalarNative::Multiply_FloatFloat
        | ScalarNative::Divide_FloatFloat | ScalarNative::Percent_FloatFloat
        | ScalarNative::Add_FloatFloat | ScalarNative::Subtract_FloatFloat
        | ScalarNative::Less_FloatFloat | ScalarNative::Greater_FloatFloat
        | ScalarNative::LessEqual_FloatFloat | ScalarNative::GreaterEqual_FloatFloat
        | ScalarNative::EqualEqual_FloatFloat | ScalarNative::NotEqual_FloatFloat
        | ScalarNative::Abs | ScalarNative::Sin | ScalarNative::Cos | ScalarNative::Tan
        | ScalarNative::Sqrt | ScalarNative::Subtract_PreVector | ScalarNative::Multiply_VectorFloat
        | ScalarNative::Multiply_FloatVector | ScalarNative::Multiply_VectorVector
        | ScalarNative::Divide_VectorFloat | ScalarNative::Add_VectorVector
        | ScalarNative::Subtract_VectorVector | ScalarNative::LessLess_VectorRotator
        | ScalarNative::GreaterGreater_VectorRotator | ScalarNative::EqualEqual_VectorVector
        | ScalarNative::NotEqual_VectorVector | ScalarNative::Dot_VectorVector
        | ScalarNative::Cross_VectorVector | ScalarNative::VSize | ScalarNative::Normal
        | ScalarNative::MirrorVectorByNormal | ScalarNative::FMin | ScalarNative::FMax
        | ScalarNative::FClamp | ScalarNative::Multiply_RotatorFloat
        | ScalarNative::Multiply_FloatRotator | ScalarNative::Divide_RotatorFloat => true,
        _ => false,
    }
}

/// The result of a native that does not compute in floating point.
pub enum ScalarModel {
    Int(i32),
    Bool(bool),
    Text(Seq<char>),
    Rotator([i32; 3]),
}

/// A result value as a `ScalarModel`.
pub open spec fn result_model(v: Value) -> Option<ScalarModel> {
    match v {
        Value::Int(i) => Some(ScalarModel::Int(i)),
        Value::Bool(b) => Some(ScalarModel::Bool(b)),
        Value::String(s) => Some(ScalarModel::Text(s@)),
        Value::Rotator(r) => Some(ScalarModel::Rotator(r)),
        _ => None,
    }
}

/// Whether the native reads the `None` operands as zero: an integer native
/// given at least one `None`.
pub open spec fn null_reads_as_zero(n: ScalarNative, args: Seq<Value>) -> bool {
    int_zero(n) && args.contains(Value::Null)
}

/// An integer operand; `None` reads as 0 when `zero` holds.
pub open spec fn int_operand(v: Value, zero: bool) -> Option<i32> {
    match v {
        Value::Int(i) => Some(i),
        Value::Null => if zero {
            Some(0i32)
        } else {
            None
        },
        _ => None,
    }
}

pub open spec fn int_single(n: ScalarNative, args: Seq<Value>) -> Option<i32> {
    if args.len() == 1 {
        int_operand(args[0], null_reads_as_zero(n, args))
    } else {
        None
    }
}

pub open spec fn int_pair(n: ScalarNative, args: Seq<Value>) -> Option<(i32, i32)> {
    let z = null_reads_as_zero(n, args);
    if args.len() == 2 {
        match (int_operand(args[0], z), int_operand(args[1], z)) {
            (Some(a), Some(b)) => Some((a, b)),
            _ => None,
        }
    } else {
        None
    }
}

pub open spec fn int_triple(n: ScalarNative, args: Seq<Value>) -> Option<(i32, i32, i32)> {
    let z = null_reads_as_zero(n, args);
    if args.len() == 3 {
        match (int_operand(args[0], z), int_operand(args[1], z), int_operand(args[2], z)) {
            (Some(a), Some(b), Some(c)) => Some((a, b, c)),
            _ => None,
        }
    } else {
        None
    }
}

pub open spec fn text_single(args: Seq<Value>) -> Option<Seq<char>> {
    if args.len() == 1 {
        match args[0] {
            Value::String(s) => Some(s@),
            _ => None,
        }
    } else {
        None
    }
}

pub open spec fn text_pair(args: Seq<Value>) -> Option<(Seq<char>, Seq<char>)> {
    if args.len() == 2 {
        match (args[0], args[1]) {
            (Value::String(a), Value::String(b)) => Some((a@, b@)),
            _ => None,
        }
    } else {
        None
    }
}

pub open spec fn bool_pair(args: Seq<Value>) -> Option<(bool, bool)> {
    if args.len() == 2 {
        match (truth_of(args[0]), truth_of(args[1])) {
            (Some(a), Some(b)) => Some((a, b)),
            _ => None,
        }
    } else {
        None
    }
}

/// A count given as a script integer: negative counts are 0.
pub open spec fn count_of(i: i32) -> nat {
    if i < 0 {
        0
    } else {
        i as nat
    }
}

/// The characters after the first `n`.
pub open spec fn skip_chars(s: Seq<char>, n: nat) -> Seq<char> {
    if n >= s.len() {
        Seq::empty()
    } else {
        s.subrange(n as int, s.len() as int)
    }
}

/// The first `n` characters.
pub open spec fn take_chars(s: Seq<char>, n: nat) -> Seq<char> {
    if n >= s.len() {
        s
    } else {
        s.subrange(0, n as int)
    }
}

/// The first position at or after `i` where `needle` occurs, or -1.
pub open spec fn find_from(s: Seq<char>, needle: Seq<char>, i: int) -> int
    decreases s.len() + 1 - i,
{
    if i < 0 || i + needle.len() > s.len() {
        -1
    } else if s.subrange(i, i + needle.len()) == needle {
        i
    } else {
        find_from(s, needle, i + 1)
    }
}

/// Truncating integer division.
pub open spec fn quotient(a: i32, b: i32) -> int {
    let q = abs(a as int) / abs(b as int);
    if (a < 0) == (b < 0) {
        q
    } else {
        -q
    }
}

pub open spec fn abs(x: int) -> int {
    if x < 0 {
        -x
    } else {
        x
    }
}

/// What `str::to_uppercase` gives: the Unicode upper-case mapping of each
/// character, which may change the length.
pub uninterp spec fn uppercase_of(s: Seq<char>) -> Seq<char>;

/// `str::to_uppercase`.
#[verifier::external_body]
fn to_uppercase(s: &str) -> (r: String)
    ensures
        r@ == uppercase_of(s@),
{
    s.to_uppercase()
}

/// What a native that does not compute in floating point gives for its
/// operands (integer natives reading `None` as 0); nothing when the
/// operands do not suit it or the integer division is undefined.
pub open spec fn scalar_value(n: ScalarNative, args: Seq<Value>) -> Option<ScalarModel> {
    match n {
        ScalarNative::Min => match int_pair(n, args) {
            Some((a, b)) => Some(ScalarModel::Int(if a <= b { a } else { b })),
            None => None,
        },
        ScalarNative::Max => match int_pair(n, args) {
            Some((a, b)) => Some(ScalarModel::Int(if a <= b { b } else { a })),
            None => None,
        },
        ScalarNative::Clamp => match int_triple(n, args) {
            Some((v, lo, hi)) => {
                let t = if v <= hi { v } else { hi };
                Some(ScalarModel::Int(if t >= lo { t } else { lo }))
            },
            None => None,
        },
        ScalarNative::EqualEqual_ObjectObject | ScalarNative::NotEqual_ObjectObject => if args.len()
            == 2 {
            match (object_of(args[0]), object_of(args[1])) {
                (Some(a), Some(b)) => Some(
                    ScalarModel::Bool((a == b) == (n == ScalarNative::EqualEqual_ObjectObject)),
                ),
                _ => None,
            }
        } else {
            None
        },
        ScalarNative::EqualEqual_BoolBool | ScalarNative::NotEqual_BoolBool => match bool_pair(args) {
            Some((a, b)) => Some(ScalarModel::Bool((a == b) == (n == ScalarNative::EqualEqual_BoolBool))),
            None => None,
        },
        ScalarNative::Divide_IntInt => match int_pair(n, args) {
            Some((a, b)) => if b == 0 || (a == i32::MIN && b == -1) {
                None
            } else {
                Some(ScalarModel::Int(quotient(a, b) as i32))
            },
            None => None,
        },
        ScalarNative::Concat_StrStr => match text_pair(args) {
            Some((a, b)) => Some(ScalarModel::Text(a + b)),
            None => None,
        },
        ScalarNative::At_StrStr => match text_pair(args) {
            Some((a, b)) => Some(ScalarModel::Text(a + seq![' '] + b)),
            None => None,
        },
        ScalarNative::Not_PreBool => if args.len() == 1 {
            match truth_of(args[0]) {
                Some(b) => Some(ScalarModel::Bool(!b)),
                None => None,
            }
        } else {
            None
        },
        ScalarNative::AndAnd_BoolBool => if args.len() == 2 {
            match truth_of(args[0]) {
                Some(false) => Some(ScalarModel::Bool(false)),
                Some(true) => match truth_of(args[1]) {
                    Some(b) => Some(ScalarModel::Bool(b)),
                    None => None,
                },
                None => None,
            }
        } else {
            None
        },
        ScalarNative::OrOr_BoolBool => if args.len() == 2 {
            match truth_of(args[0]) {
                Some(true) => Some(ScalarModel::Bool(true)),
                Some(false) => match truth_of(args[1]) {
                    Some(b) => Some(ScalarModel::Bool(b)),
                    None => None,
                },
                None => None,
            }
        } else {
            None
        },
        ScalarNative::XorXor_BoolBool => match bool_pair(args) {
            Some((a, b)) => Some(ScalarModel::Bool(a != b)),
            None => None,
        },
        ScalarNative::Subtract_PreInt => match int_single(n, args) {
            Some(v) => Some(ScalarModel::Int(if v == i32::MIN { v } else { (-v) as i32 })),
            None => None,
        },
        ScalarNative::Multiply_IntInt => match int_pair(n, args) {
            Some((a, b)) => Some(ScalarModel::Int((a * b) as i32)),
            None => None,
        },
        ScalarNative::Add_IntInt => match int_pair(n, args) {
            Some((a, b)) => Some(ScalarModel::Int((a + b) as i32)),
            None => None,
        },
        ScalarNative::Subtract_IntInt => match int_pair(n, args) {
            Some((a, b)) => Some(ScalarModel::Int((a - b) as i32)),
            None => None,
        },
        ScalarNative::LessLess_IntInt => match int_pair(n, args) {
            Some((a, b)) => Some(ScalarModel::Int(a.wrapping_shl(b as u32))),
            None => None,
        },
        ScalarNative::GreaterGreater_IntInt => match int_pair(n, args) {
            Some((a, b)) => Some(ScalarModel::Int(a.wrapping_shr(b as u32))),
            None => None,
        },
        ScalarNative::GreaterGreaterGreater_IntInt => match int_pair(n, args) {
            Some((a, b)) => Some(ScalarModel::Int(((a as u32).wrapping_shr(b as u32)) as i32)),
            None => None,
        },
        ScalarNative::Less_IntInt => match int_pair(n, args) {
            Some((a, b)) => Some(ScalarModel::Bool(a < b)),
            None => None,
        },
        ScalarNative::Greater_IntInt => match int_pair(n, args) {
            Some((a, b)) => Some(ScalarModel::Bool(a > b)),
            None => None,
        },
        ScalarNative::LessEqual_IntInt => match int_pair(n, args) {
            Some((a, b)) => Some(ScalarModel::Bool(a <= b)),
            None => None,
        },
        ScalarNative::GreaterEqual_IntInt => match int_pair(n, args) {
            Some((a, b)) => Some(ScalarModel::Bool(a >= b)),
            None => None,
        },
        ScalarNative::EqualEqual_IntInt => match int_pair(n, args) {
            Some((a, b)) => Some(ScalarModel::Bool(a == b)),
            None => None,
        },
        ScalarNative::NotEqual_IntInt => match int_pair(n, args) {
            Some((a, b)) => Some(ScalarModel::Bool(a != b)),
            None => None,
        },
        ScalarNative::And_IntInt => match int_pair(n, args) {
            Some((a, b)) => Some(ScalarModel::Int(a & b)),
            None => None,
        },
        ScalarNative::EqualEqual_StrStr | ScalarNative::ComplementEqual_StrStr => match text_pair(args) {
            Some((a, b)) => Some(ScalarModel::Bool(same_ignoring_ascii_case(a, b))),
            None => None,
        },
        ScalarNative::NotEqual_StrStr => match text_pair(args) {
            Some((a, b)) => Some(ScalarModel::Bool(!same_ignoring_ascii_case(a, b))),
            None => None,
        },
        ScalarNative::Len => match text_single(args) {
            Some(t) => Some(ScalarModel::Int(t.len() as i32)),
            None => None,
        },
        ScalarNative::InStr => match text_pair(args) {
            Some((a, b)) => Some(ScalarModel::Int(find_from(a, b, 0) as i32)),
            None => None,
        },
        ScalarNative::Mid => if args.len() == 2 || args.len() == 3 {
            match (args[0], args[1]) {
                (Value::String(t), Value::Int(start)) => {
                    let rest = skip_chars(t@, count_of(start));
                    if args.len() == 2 {
                        Some(ScalarModel::Text(rest))
                    } else {
                        match args[2] {
                            Value::Null => Some(ScalarModel::Text(rest)),
                            Value::Int(length) => Some(ScalarModel::Text(take_chars(rest, count_of(length)))),
                            _ => None,
                        }
                    }
                },
                _ => None,
            }
        } else {
            None
        },
        ScalarNative::Left => if args.len() == 2 {
            match (args[0], args[1]) {
                (Value::String(t), Value::Int(length)) => Some(
                    ScalarModel::Text(take_chars(t@, count_of(length))),
                ),
                _ => None,
            }
        } else {
            None
        },
        ScalarNative::Right => if args.len() == 2 {
            match (args[0], args[1]) {
                (Value::String(t), Value::Int(length)) => {
                    let skip = if t@.len() >= count_of(length) { (t@.len() - count_of(length)) as nat } else { 0 };
                    Some(ScalarModel::Text(skip_chars(t@, skip)))
                },
                _ => None,
            }
        } else {
            None
        },
        ScalarNative::Caps => match text_single(args) {
            Some(t) => Some(ScalarModel::Text(uppercase_of(t))),
            None => None,
        },
        ScalarNative::Asc => match text_single(args) {
            Some(t) => Some(
                ScalarModel::Int(if encode_utf8(t).len() > 0 { encode_utf8(t)[0] as i32 } else { 0 }),
            ),
            None => None,
        },
        ScalarNative::Chr => match int_single(n, args) {
            Some(v) => Some(ScalarModel::Text(seq![(v as u8) as char])),
            None => None,
        },
        ScalarNative::Add_RotatorRotator => if args.len() == 2 {
            match (args[0], args[1]) {
                (Value::Rotator(a), Value::Rotator(b)) => Some(
                    ScalarModel::Rotator(
                        [a[0].wrapping_add(b[0]), a[1].wrapping_add(b[1]), a[2].wrapping_add(b[2])],
                    ),
                ),
                _ => None,
            }
        } else {
            None
        },
        ScalarNative::Subtract_RotatorRotator => if args.len() == 2 {
            match (args[0], args[1]) {
                (Value::Rotator(a), Value::Rotator(b)) => Some(
                    ScalarModel::Rotator(
                        [a[0].wrapping_sub(b[0]), a[1].wrapping_sub(b[1]), a[2].wrapping_sub(b[2])],
                    ),
                ),
                _ => None,
            }
        } else {
            None
        },
        _ => None,
    }
}

/// An object operand: `None` is the null handle.
pub open spec fn object_of(v: Value) -> Option<i32> {
    match v {
        Value::Null => Some(0i32),
        Value::Object(h) => Some(h),
        _ => None,
    }
}

/// Whether the integer products, sums and differences a native computes
/// fit an `i32`.
pub open spec fn int_arithmetic_fits(index: u16, args: Seq<Value>) -> bool {
    match native_of(index) {
        Some(n) => match int_pair(n, args) {
            Some((a, b)) => match n {
                ScalarNative::Multiply_IntInt => i32::MIN <= a * b <= i32::MAX,
                ScalarNative::Add_IntInt => i32::MIN <= a + b <= i32::MAX,
                ScalarNative::Subtract_IntInt => i32::MIN <= a - b <= i32::MAX,
                _ => true,
            },
            None => true,
        },
        None => true,
    }
}

/// Whether the integer products, sums and differences a native computes
/// fit an `i32`: whether `scalar_native` may be run on these operands, or
/// the arithmetic overflows.
pub fn int_arithmetic_checked(index: u16, arguments: &[Value]) -> (r: bool)
    ensures
        r == int_arithmetic_fits(index, arguments@),
{
    let native = match ScalarNative::try_from(index) {
        Ok(n) => n,
        Err(()) => {
            return true;
        },
    };
    let zero = has_null(arguments);
    match native {
        ScalarNative::Multiply_IntInt | ScalarNative::Add_IntInt | ScalarNative::Subtract_IntInt => {
            assert(zero == null_reads_as_zero(native, arguments@));
            match int_pair_of(arguments, zero) {
                None => true,
                Some((a, b)) => {
                    let x = a as i64;
                    let y = b as i64;
                    let v: i64 = match native {
                        ScalarNative::Multiply_IntInt => {
                            assert(-0x4000_0000_0000_0000 <= x * y <= 0x4000_0000_0000_0000) by (nonlinear_arith)
                                requires
                                    -0x8000_0000 <= x <= 0x7fff_ffff,
                                    -0x8000_0000 <= y <= 0x7fff_ffff,
                            ;
                            x * y
                        },
                        ScalarNative::Add_IntInt => x + y,
                        _ => x - y,
                    };
                    -0x8000_0000 <= v && v <= 0x7fff_ffff
                },
            }
        },
        _ => true,
    }
}

/// What a scalar native gives: a value, or the single-precision work the
/// host finishes, with whether it reads `None` operands as 0.0.
#[derive(Debug, PartialEq)]
pub enum ScalarOutcome {
    Value(Value),
    Float { native: ScalarNative, null_as_zero: bool },
}

/// The name of a native, as the VM reports it.
pub open spec fn native_name(n: ScalarNative) -> Seq<char> {
    match n {
        ScalarNative::Concat_StrStr => "Concat_StrStr"@,
        ScalarNative::At_StrStr => "At_StrStr"@,
        ScalarNative::EqualEqual_ObjectObject => "EqualEqual_ObjectObject"@,
        ScalarNative::NotEqual_ObjectObject => "NotEqual_ObjectObject"@,
        ScalarNative::EqualEqual_StrStr => "EqualEqual_StrStr"@,
        ScalarNative::NotEqual_StrStr => "NotEqual_StrStr"@,
        ScalarNative::ComplementEqual_StrStr => "ComplementEqual_StrStr"@,
        ScalarNative::Len => "Len"@,
        ScalarNative::InStr => "InStr"@,
        ScalarNative::Mid => "Mid"@,
        ScalarNative::Left => "Left"@,
        ScalarNative::Right => "Right"@,
        ScalarNative::Caps => "Caps"@,
        ScalarNative::Not_PreBool => "Not_PreBool"@,
        ScalarNative::AndAnd_BoolBool => "AndAnd_BoolBool"@,
        ScalarNative::XorXor_BoolBool => "XorXor_BoolBool"@,
        ScalarNative::OrOr_BoolBool => "OrOr_BoolBool"@,
        ScalarNative::Subtract_PreInt => "Subtract_PreInt"@,
        ScalarNative::Multiply_IntInt => "Multiply_IntInt"@,
        ScalarNative::Divide_IntInt => "Divide_IntInt"@,
        ScalarNative::Add_IntInt => "Add_IntInt"@,
        ScalarNative::Subtract_IntInt => "Subtract_IntInt"@,
        ScalarNative::LessLess_IntInt => "LessLess_IntInt"@,
        ScalarNative::GreaterGreater_IntInt => "GreaterGreater_IntInt"@,
        ScalarNative::GreaterGreaterGreater_IntInt => "GreaterGreaterGreater_IntInt"@,
        ScalarNative::Less_IntInt => "Less_IntInt"@,
        ScalarNative::Greater_IntInt => "Greater_IntInt"@,
        ScalarNative::LessEqual_IntInt => "LessEqual_IntInt"@,
        ScalarNative::GreaterEqual_IntInt => "GreaterEqual_IntInt"@,
        ScalarNative::EqualEqual_IntInt => "EqualEqual_IntInt"@,
        ScalarNative::NotEqual_IntInt => "NotEqual_IntInt"@,
        ScalarNative::And_IntInt => "And_IntInt"@,
        ScalarNative::Subtract_PreFloat => "Subtract_PreFloat"@,
        ScalarNative::Multiply_FloatFloat => "Multiply_FloatFloat"@,
        ScalarNative::Divide_FloatFloat => "Divide_FloatFloat"@,
        ScalarNative::Percent_FloatFloat => "Percent_FloatFloat"@,
        ScalarNative::Add_FloatFloat => "Add_FloatFloat"@,
        ScalarNative::Subtract_FloatFloat => "Subtract_FloatFloat"@,
        ScalarNative::Less_FloatFloat => "Less_FloatFloat"@,
        ScalarNative::Greater_FloatFloat => "Greater_FloatFloat"@,
        ScalarNative::LessEqual_FloatFloat => "LessEqual_FloatFloat"@,
        ScalarNative::GreaterEqual_FloatFloat => "GreaterEqual_FloatFloat"@,
        ScalarNative::EqualEqual_FloatFloat => "EqualEqual_FloatFloat"@,
        ScalarNative::NotEqual_FloatFloat => "NotEqual_FloatFloat"@,
        ScalarNative::Abs => "Abs"@,
        ScalarNative::Sin => "Sin"@,
        ScalarNative::Cos => "Cos"@,
        ScalarNative::Tan => "Tan"@,
        ScalarNative::Sqrt => "Sqrt"@,
        ScalarNative::Subtract_PreVector => "Subtract_PreVector"@,
        ScalarNative::Multiply_VectorFloat => "Multiply_VectorFloat"@,
        ScalarNative::Multiply_FloatVector => "Multiply_FloatVector"@,
        ScalarNative::Multiply_VectorVector => "Multiply_VectorVector"@,
        ScalarNative::Divide_VectorFloat => "Divide_VectorFloat"@,
        ScalarNative::Add_VectorVector => "Add_VectorVector"@,
        ScalarNative::Subtract_VectorVector => "Subtract_VectorVector"@,
        ScalarNative::LessLess_VectorRotator => "LessLess_VectorRotator"@,
        ScalarNative::GreaterGreater_VectorRotator => "GreaterGreater_VectorRotator"@,
        ScalarNative::EqualEqual_VectorVector => "EqualEqual_VectorVector"@,
        ScalarNative::NotEqual_VectorVector => "NotEqual_VectorVector"@,
        ScalarNative::Dot_VectorVector => "Dot_VectorVector"@,
        ScalarNative::Cross_VectorVector => "Cross_VectorVector"@,
        ScalarNative::VSize => "VSize"@,
        ScalarNative::Normal => "Normal"@,
        ScalarNative::MirrorVectorByNormal => "MirrorVectorByNormal"@,
        ScalarNative::FMin => "FMin"@,
        ScalarNative::FMax => "FMax"@,
        ScalarNative::FClamp => "FClamp"@,
        ScalarNative::Min => "Min"@,
        ScalarNative::Max => "Max"@,
        ScalarNative::Clamp => "Clamp"@,
        ScalarNative::EqualEqual_BoolBool => "EqualEqual_BoolBool"@,
        ScalarNative::NotEqual_BoolBool => "NotEqual_BoolBool"@,
        ScalarNative::Chr => "Chr"@,
        ScalarNative::Asc => "Asc"@,
        ScalarNative::Multiply_RotatorFloat => "Multiply_RotatorFloat"@,
        ScalarNative::Multiply_FloatRotator => "Multiply_FloatRotator"@,
        ScalarNative::Divide_RotatorFloat => "Divide_RotatorFloat"@,
        ScalarNative::Add_RotatorRotator => "Add_RotatorRotator"@,
        ScalarNative::Subtract_RotatorRotator => "Subtract_RotatorRotator"@,
    }
}

impl ScalarNative {
    /// The native's name, as the VM reports it.
    pub fn name(&self) -> (r: &'static str)
        ensures
            r@ == native_name(*self),
    {
        match self {
            ScalarNative::Concat_StrStr => "Concat_StrStr",
            ScalarNative::At_StrStr => "At_StrStr",
            ScalarNative::EqualEqual_ObjectObject => "EqualEqual_ObjectObject",
            ScalarNative::NotEqual_ObjectObject => "NotEqual_ObjectObject",
            ScalarNative::EqualEqual_StrStr => "EqualEqual_StrStr",
            ScalarNative::NotEqual_StrStr => "NotEqual_StrStr",
            ScalarNative::ComplementEqual_StrStr => "ComplementEqual_StrStr",
            ScalarNative::Len => "Len",
            ScalarNative::InStr => "InStr",
            ScalarNative::Mid => "Mid",
            ScalarNative::Left => "Left",
            ScalarNative::Right => "Right",
            ScalarNative::Caps => "Caps",
            ScalarNative::Not_PreBool => "Not_PreBool",
            ScalarNative::AndAnd_BoolBool => "AndAnd_BoolBool",
            ScalarNative::XorXor_BoolBool => "XorXor_BoolBool",
            ScalarNative::OrOr_BoolBool => "OrOr_BoolBool",
            ScalarNative::Subtract_PreInt => "Subtract_PreInt",
            ScalarNative::Multiply_IntInt => "Multiply_IntInt",
            ScalarNative::Divide_IntInt => "Divide_IntInt",
            ScalarNative::Add_IntInt => "Add_IntInt",
            ScalarNative::Subtract_IntInt => "Subtract_IntInt",
            ScalarNative::LessLess_IntInt => "LessLess_IntInt",
            ScalarNative::GreaterGreater_IntInt => "GreaterGreater_IntInt",
            ScalarNative::GreaterGreaterGreater_IntInt => "GreaterGreaterGreater_IntInt",
            ScalarNative::Less_IntInt => "Less_IntInt",
            ScalarNative::Greater_IntInt => "Greater_IntInt",
            ScalarNative::LessEqual_IntInt => "LessEqual_IntInt",
            ScalarNative::GreaterEqual_IntInt => "GreaterEqual_IntInt",
            ScalarNative::EqualEqual_IntInt => "EqualEqual_IntInt",
            ScalarNative::NotEqual_IntInt => "NotEqual_IntInt",
            ScalarNative::And_IntInt => "And_IntInt",
            ScalarNative::Subtract_PreFloat => "Subtract_PreFloat",
            ScalarNative::Multiply_FloatFloat => "Multiply_FloatFloat",
            ScalarNative::Divide_FloatFloat => "Divide_FloatFloat",
            ScalarNative::Percent_FloatFloat => "Percent_FloatFloat",
            ScalarNative::Add_FloatFloat => "Add_FloatFloat",
            ScalarNative::Subtract_FloatFloat => "Subtract_FloatFloat",
            ScalarNative::Less_FloatFloat => "Less_FloatFloat",
            ScalarNative::Greater_FloatFloat => "Greater_FloatFloat",
            ScalarNative::LessEqual_FloatFloat => "LessEqual_FloatFloat",
            ScalarNative::GreaterEqual_FloatFloat => "GreaterEqual_FloatFloat",
            ScalarNative::EqualEqual_FloatFloat => "EqualEqual_FloatFloat",
            ScalarNative::NotEqual_FloatFloat => "NotEqual_FloatFloat",
            ScalarNative::Abs => "Abs",
            ScalarNative::Sin => "Sin",
            ScalarNative::Cos => "Cos",
            ScalarNative::Tan => "Tan",
            ScalarNative::Sqrt => "Sqrt",
            ScalarNative::Subtract_PreVector => "Subtract_PreVector",
            ScalarNative::Multiply_VectorFloat => "Multiply_VectorFloat",
            ScalarNative::Multiply_FloatVector => "Multiply_FloatVector",
            ScalarNative::Multiply_VectorVector => "Multiply_VectorVector",
            ScalarNative::Divide_VectorFloat => "Divide_VectorFloat",
            ScalarNative::Add_VectorVector => "Add_VectorVector",
            ScalarNative::Subtract_VectorVector => "Subtract_VectorVector",
            ScalarNative::LessLess_VectorRotator => "LessLess_VectorRotator",
            ScalarNative::GreaterGreater_VectorRotator => "GreaterGreater_VectorRotator",
            ScalarNative::EqualEqual_VectorVector => "EqualEqual_VectorVector",
            ScalarNative::NotEqual_VectorVector => "NotEqual_VectorVector",
            ScalarNative::Dot_VectorVector => "Dot_VectorVector",
            ScalarNative::Cross_VectorVector => "Cross_VectorVector",
            ScalarNative::VSize => "VSize",
            ScalarNative::Normal => "Normal",
            ScalarNative::MirrorVectorByNormal => "MirrorVectorByNormal",
            ScalarNative::FMin => "FMin",
            ScalarNative::FMax => "FMax",
            ScalarNative::FClamp => "FClamp",
            ScalarNative::Min => "Min",
            ScalarNative::Max => "Max",
            ScalarNative::Clamp => "Clamp",
            ScalarNative::EqualEqual_BoolBool => "EqualEqual_BoolBool",
            ScalarNative::NotEqual_BoolBool => "NotEqual_BoolBool",
            ScalarNative::Chr => "Chr",
            ScalarNative::Asc => "Asc",
            ScalarNative::Multiply_RotatorFloat => "Multiply_RotatorFloat",
            ScalarNative::Multiply_FloatRotator => "Multiply_FloatRotator",
            ScalarNative::Divide_RotatorFloat => "Divide_RotatorFloat",
            ScalarNative::Add_RotatorRotator => "Add_RotatorRotator",
            ScalarNative::Subtract_RotatorRotator => "Subtract_RotatorRotator",
        }
    }
}

/// The lower-case hex digit of a value below 16.
pub open spec fn hex_of(d: int) -> char {
    if d == 0 { '0' } else if d == 1 { '1' } else if d == 2 { '2' } else if d == 3 { '3' }
    else if d == 4 { '4' } else if d == 5 { '5' } else if d == 6 { '6' } else if d == 7 { '7' }
    else if d == 8 { '8' } else if d == 9 { '9' } else if d == 10 { 'a' } else if d == 11 { 'b' }
    else if d == 12 { 'c' } else if d == 13 { 'd' } else if d == 14 { 'e' } else { 'f' }
}

/// The text of a native index: `0x`, then its hex digits from the fourth
/// last on when that one is not 0, then the last three.
pub open spec fn index_chars(index: u16) -> Seq<char> {
    let top = index as int / 4096;
    "0x"@ + (if top > 0 {
        seq![hex_of(top)]
    } else {
        Seq::<char>::empty()
    }) + seq![hex_of((index as int / 256) % 16), hex_of((index as int / 16) % 16), hex_of(index as int % 16)]
}

/// The kinds of the operands, separated by ", ".
pub open spec fn kinds_text(args: Seq<Value>) -> Seq<char>
    decreases args.len(),
{
    if args.len() == 0 {
        Seq::empty()
    } else if args.len() == 1 {
        kind_name(args[0])
    } else {
        kinds_text(args.drop_last()) + ", "@ + kind_name(args.last())
    }
}

/// The message for operands a native does not accept.
pub open spec fn bad_operands_text(native: ScalarNative, args: Seq<Value>) -> Seq<char> {
    native_name(native) + " does not accept operands ("@ + kinds_text(args) + ")"@
}

/// A hex digit, lower case.
fn hex_digit(d: u16) -> (r: char)
    requires
        d < 16,
    ensures
        r == hex_of(d as int),
{
    match d {
        0 => '0',
        1 => '1',
        2 => '2',
        3 => '3',
        4 => '4',
        5 => '5',
        6 => '6',
        7 => '7',
        8 => '8',
        9 => '9',
        10 => 'a',
        11 => 'b',
        12 => 'c',
        13 => 'd',
        14 => 'e',
        _ => 'f',
    }
}

/// The text of a native index: `0x` and at least three lower-case hex
/// digits.
pub fn index_text(index: u16) -> (r: String)
    ensures
        r@ == index_chars(index),
{
    let mut text = "0x".to_owned();
    let top = index / 4096;
    if top > 0 {
        text = text.concat(char_string(hex_digit(top)).as_str());
    }
    text = text.concat(char_string(hex_digit((index / 256) % 16)).as_str());
    text = text.concat(char_string(hex_digit((index / 16) % 16)).as_str());
    text = text.concat(char_string(hex_digit(index % 16)).as_str());
    assert(text@ =~= index_chars(index));
    text
}

/// The message for operands a native does not accept: its name and the
/// kinds of the operands.
pub fn bad_operands(native: ScalarNative, arguments: &[Value]) -> (r: String)
    ensures
        r@ == bad_operands_text(native, arguments@),
{
    let mut text = native.name().to_owned().concat(" does not accept operands (");
    let ghost head = native_name(native) + " does not accept operands ("@;
    let mut i: usize = 0;
    assert(arguments@.take(0) =~= Seq::<Value>::empty());
    assert(text@ =~= head + kinds_text(arguments@.take(0)));
    while i < arguments.len()
        invariant
            0 <= i <= arguments@.len(),
            head == native_name(native) + " does not accept operands ("@,
            text@ == head + kinds_text(arguments@.take(i as int)),
        decreases arguments@.len() - i,
    {
        let ghost before = text@;
        assert(arguments@.take(i + 1).drop_last() =~= arguments@.take(i as int));
        assert(arguments@.take(i + 1).last() == arguments@[i as int]);
        if i > 0 {
            text = text.concat(", ");
        }
        text = text.concat(arguments[i].kind());
        proof {
            if i == 0 {
                assert(arguments@.take(1)[0] == arguments@[0]);
                assert(text@ =~= head + kinds_text(arguments@.take(1)));
            } else {
                assert(text@ =~= head + (kinds_text(arguments@.take(i as int)) + ", "@ + kind_name(arguments@[i as int])));
            }
        }
        i = i + 1;
    }
    assert(arguments@.take(arguments@.len() as int) =~= arguments@);
    let r = text.concat(")");
    assert(r@ =~= bad_operands_text(native, arguments@));
    r
}

/// Whether any operand is `None`.
fn has_null(args: &[Value]) -> (r: bool)
    ensures
        r == args@.contains(Value::Null),
{
    let mut i: usize = 0;
    while i < args.len()
        invariant
            0 <= i <= args@.len(),
            forall|j: int| 0 <= j < i ==> args@[j] != Value::Null,
        decreases args@.len() - i,
    {
        if let Value::Null = &args[i] {
            assert(args@[i as int] == Value::Null);
            return true;
        }
        i = i + 1;
    }
    false
}

fn int_operand_of(v: &Value, zero: bool) -> (r: Option<i32>)
    ensures
        r == int_operand(*v, zero),
{
    match v {
        Value::Int(i) => Some(*i),
        Value::Null => if zero {
            Some(0)
        } else {
            None
        },
        _ => None,
    }
}

fn int_pair_of(args: &[Value], zero: bool) -> (r: Option<(i32, i32)>)
    ensures
        r == (if args@.len() == 2 {
            match (int_operand(args@[0], zero), int_operand(args@[1], zero)) {
                (Some(a), Some(b)) => Some((a, b)),
                _ => None,
            }
        } else {
            None
        }),
{
    if args.len() != 2 {
        return None;
    }
    match (int_operand_of(&args[0], zero), int_operand_of(&args[1], zero)) {
        (Some(a), Some(b)) => Some((a, b)),
        _ => None,
    }
}

fn text_pair_of(args: &[Value]) -> (r: Option<(&String, &String)>)
    ensures
        match r {
            Some((a, b)) => text_pair(args@) == Some((a@, b@)),
            None => text_pair(args@) is None,
        },
{
    if args.len() != 2 {
        return None;
    }
    match (&args[0], &args[1]) {
        (Value::String(a), Value::String(b)) => Some((a, b)),
        _ => None,
    }
}

fn truth_pair_of(args: &[Value]) -> (r: Result<(bool, bool), String>)
    ensures
        match r {
            Ok(p) => bool_pair(args@) == Some(p),
            Err(m) => bool_pair(args@) is None && (args@.len() == 2 ==> m@ == "value is not a boolean"@),
        },
{
    if args.len() != 2 {
        return Err("a boolean native expects two operands".to_owned());
    }
    let a = args[0].truthy()?;
    let b = args[1].truthy()?;
    Ok((a, b))
}

/// The first position of `needle` in `text`, counted in characters, or -1.
fn find_chars(text: &str, needle: &str) -> (r: i32)
    ensures
        r == find_from(text@, needle@, 0) as i32,
{
    let n = text.unicode_len();
    let m = needle.unicode_len();
    if m > n {
        return -1;
    }
    let mut i: usize = 0;
    loop
        invariant
            n == text@.len(),
            m == needle@.len(),
            m <= n,
            i <= n - m,
            find_from(text@, needle@, 0) == find_from(text@, needle@, i as int),
        decreases n - m - i,
    {
        let part = text.substring_char(i, i + m);
        if str_equal(part, needle) {
            return i as i32;
        }
        assert(part@ != needle@);
        if i == n - m {
            assert(find_from(text@, needle@, i + 1) == -1);
            return -1;
        }
        i = i + 1;
    }
}

/// The characters of `text` after the first `n`.
fn skip_text(text: &str, n: usize) -> (r: String)
    ensures
        r@ == skip_chars(text@, n as nat),
{
    let len = text.unicode_len();
    if n >= len {
        String::new()
    } else {
        text.substring_char(n, len).to_owned()
    }
}

/// The first `n` characters of `text`.
fn take_text(text: &str, n: usize) -> (r: String)
    ensures
        r@ == take_chars(text@, n as nat),
{
    let len = text.unicode_len();
    if n >= len {
        text.to_owned()
    } else {
        text.substring_char(0, n).to_owned()
    }
}

/// A script integer as a count: negative counts are 0.
fn count(i: i32) -> (r: usize)
    ensures
        r == count_of(i),
{
    if i < 0 {
        0
    } else {
        i as usize
    }
}

/// Whether an integer division has operands it cannot divide: a zero
/// divisor, or the one quotient that overflows.
pub open spec fn division_fails(n: ScalarNative, args: Seq<Value>) -> bool {
    n == ScalarNative::Divide_IntInt && match int_pair(n, args) {
        Some((a, b)) => b == 0 || (a == i32::MIN && b == -1),
        None => false,
    }
}

/// Whether a native reads its operands as truth values.
pub open spec fn reads_truth(n: ScalarNative) -> bool {
    n == ScalarNative::EqualEqual_BoolBool || n == ScalarNative::NotEqual_BoolBool
        || n == ScalarNative::XorXor_BoolBool || n == ScalarNative::AndAnd_BoolBool
        || n == ScalarNative::OrOr_BoolBool || n == ScalarNative::Not_PreBool
}

/// The message a native that computes nothing answers with: the division
/// message, the truth-value message for a truth operator given the right
/// number of operands, and otherwise the names of the operand kinds.
pub open spec fn scalar_error(n: ScalarNative, args: Seq<Value>) -> Seq<char> {
    if division_fails(n, args) {
        "integer division by zero or overflow"@
    } else if reads_truth(n) && args.len() == (if n == ScalarNative::Not_PreBool { 1int } else { 2int }) {
        "value is not a boolean"@
    } else {
        bad_operands_text(n, args)
    }
}

/// Runs a scalar native on its operands. Natives that compute in single
/// precision are handed back to the host with how they read `None`.
pub fn scalar_native(index: u16, arguments: &[Value]) -> (r: Result<ScalarOutcome, String>)
    requires
        int_arithmetic_fits(index, arguments@),
    ensures
        match native_of(index) {
            None => r matches Err(message) && message@ == "native "@ + index_chars(index)
                + " is not implemented"@,
            Some(n) => if float_native(n) {
                r matches Ok(ScalarOutcome::Float { native, null_as_zero }) && native == n
                    && null_as_zero == (float_zero(n) && arguments@.contains(Value::Null))
            } else {
                match scalar_value(n, arguments@) {
                    Some(m) => r matches Ok(ScalarOutcome::Value(v)) && result_model(v) == Some(m),
                    None => r matches Err(message) && message@ == scalar_error(n, arguments@),
                }
            },
        },
{
    let native = match ScalarNative::try_from(index) {
        Ok(n) => n,
        Err(()) => {
            return Err("native ".to_owned().concat(index_text(index).as_str()).concat(" is not implemented"));
        },
    };
    let nulls = has_null(arguments);
    match native {
        ScalarNative::Subtract_PreFloat | ScalarNative::Multiply_FloatFloat
        | ScalarNative::Divide_FloatFloat | ScalarNative::Add_FloatFloat
        | ScalarNative::Subtract_FloatFloat | ScalarNative::Less_FloatFloat
        | ScalarNative::Greater_FloatFloat | ScalarNative::LessEqual_FloatFloat
        | ScalarNative::GreaterEqual_FloatFloat | ScalarNative::EqualEqual_FloatFloat
        | ScalarNative::NotEqual_FloatFloat | ScalarNative::Abs | ScalarNative::Sqrt
        | ScalarNative::FMin | ScalarNative::FMax | ScalarNative::FClamp => {
            return Ok(ScalarOutcome::Float { native, null_as_zero: nulls });
        },
        ScalarNative::Percent_FloatFloat | ScalarNative::Sin | ScalarNative::Cos | ScalarNative::Tan
        | ScalarNative::Subtract_PreVector | ScalarNative::Multiply_VectorFloat
        | ScalarNative::Multiply_FloatVector | ScalarNative::Multiply_VectorVector
        | ScalarNative::Divide_VectorFloat | ScalarNative::Add_VectorVector
        | ScalarNative::Subtract_VectorVector | ScalarNative::LessLess_VectorRotator
        | ScalarNative::GreaterGreater_VectorRotator | ScalarNative::EqualEqual_VectorVector
        | ScalarNative::NotEqual_VectorVector | ScalarNative::Dot_VectorVector
        | ScalarNative::Cross_VectorVector | ScalarNative::VSize | ScalarNative::Normal
        | ScalarNative::MirrorVectorByNormal | ScalarNative::Multiply_RotatorFloat
        | ScalarNative::Multiply_FloatRotator | ScalarNative::Divide_RotatorFloat => {
            return Ok(ScalarOutcome::Float { native, null_as_zero: false });
        },
        _ => {},
    }
    let zero = nulls && match native {
        ScalarNative::Subtract_PreInt | ScalarNative::Multiply_IntInt | ScalarNative::Divide_IntInt
        | ScalarNative::Add_IntInt | ScalarNative::Subtract_IntInt | ScalarNative::LessLess_IntInt
        | ScalarNative::GreaterGreaterGreater_IntInt | ScalarNative::Less_IntInt
        | ScalarNative::Greater_IntInt | ScalarNative::LessEqual_IntInt
        | ScalarNative::GreaterEqual_IntInt | ScalarNative::EqualEqual_IntInt
        | ScalarNative::NotEqual_IntInt | ScalarNative::And_IntInt | ScalarNative::Min
        | ScalarNative::Max | ScalarNative::Clamp | ScalarNative::Chr => true,
        _ => false,
    };
    assert(zero == null_reads_as_zero(native, arguments@));
    let value = match native {
        ScalarNative::Min | ScalarNative::Max | ScalarNative::Divide_IntInt
        | ScalarNative::Multiply_IntInt | ScalarNative::Add_IntInt | ScalarNative::Subtract_IntInt
        | ScalarNative::LessLess_IntInt | ScalarNative::GreaterGreater_IntInt
        | ScalarNative::GreaterGreaterGreater_IntInt | ScalarNative::Less_IntInt
        | ScalarNative::Greater_IntInt | ScalarNative::LessEqual_IntInt
        | ScalarNative::GreaterEqual_IntInt | ScalarNative::EqualEqual_IntInt
        | ScalarNative::NotEqual_IntInt | ScalarNative::And_IntInt => {
            let (a, b) = match int_pair_of(arguments, zero) {
                Some(p) => p,
                None => {
                    return Err(bad_operands(native, arguments));
                },
            };
            let v = match native {
                ScalarNative::Min => Value::Int(if a <= b { a } else { b }),
                ScalarNative::Max => Value::Int(if a <= b { b } else { a }),
                ScalarNative::Divide_IntInt => {
                    if b == 0 || (a == i32::MIN && b == -1) {
                        return Err("integer division by zero or overflow".to_owned());
                    }
                    let x: i64 = if a < 0 { -(a as i64) } else { a as i64 };
                    let y: i64 = if b < 0 { -(b as i64) } else { b as i64 };
                    let q: i64 = x / y;
                    assert(q <= 0x8000_0000) by (nonlinear_arith)
                        requires x <= 0x8000_0000, y >= 1, q == x / y;
                    assert(q >= 0) by (nonlinear_arith)
                        requires x >= 0, y >= 1, q == x / y;
                    if (a < 0) == (b < 0) {
                        if q > i32::MAX as i64 {
                            assert(false) by (nonlinear_arith)
                                requires
                                    x == 0x8000_0000 ==> (a == i32::MIN),
                                    x <= 0x8000_0000,
                                    q == x / y,
                                    q > 0x7fff_ffff,
                                    y >= 1,
                                    (a == i32::MIN) ==> b != -1,
                                    y == 1 ==> (b == 1 || b == -1),
                                    (a < 0) == (b < 0),
                            {
                            }
                        }
                        Value::Int(q as i32)
                    } else {
                        Value::Int((-q) as i32)
                    }
                },
                ScalarNative::Multiply_IntInt => Value::Int(a * b),
                ScalarNative::Add_IntInt => Value::Int(a + b),
                ScalarNative::Subtract_IntInt => Value::Int(a - b),
                ScalarNative::LessLess_IntInt => {
                    let shift = b as u32;
                    let shifted = a.wrapping_shl(shift);
                    assert(shifted == a.wrapping_shl(b as u32));
                    Value::Int(shifted)
                },
                ScalarNative::GreaterGreater_IntInt => Value::Int(a.wrapping_shr(b as u32)),
                ScalarNative::GreaterGreaterGreater_IntInt => {
                    let bits = a as u32;
                    let shift = b as u32;
                    let shifted = bits.wrapping_shr(shift);
                    assert(shifted == (a as u32).wrapping_shr(b as u32));
                    Value::Int(shifted as i32)
                },
                ScalarNative::Less_IntInt => Value::Bool(a < b),
                ScalarNative::Greater_IntInt => Value::Bool(a > b),
                ScalarNative::LessEqual_IntInt => Value::Bool(a <= b),
                ScalarNative::GreaterEqual_IntInt => Value::Bool(a >= b),
                ScalarNative::EqualEqual_IntInt => Value::Bool(a == b),
                ScalarNative::NotEqual_IntInt => Value::Bool(a != b),
                _ => Value::Int(a & b),
            };
            assert(result_model(v) == scalar_value(native, arguments@));
            v
        },
        ScalarNative::Clamp => {
            if arguments.len() != 3 {
                return Err(bad_operands(native, arguments));
            }
            let (v, lo, hi) = match (
                int_operand_of(&arguments[0], zero),
                int_operand_of(&arguments[1], zero),
                int_operand_of(&arguments[2], zero),
            ) {
                (Some(v), Some(lo), Some(hi)) => (v, lo, hi),
                _ => {
                    return Err(bad_operands(native, arguments));
                },
            };
            let t = if v <= hi { v } else { hi };
            Value::Int(if t >= lo { t } else { lo })
        },
        ScalarNative::Subtract_PreInt | ScalarNative::Chr => {
            if arguments.len() != 1 {
                return Err(bad_operands(native, arguments));
            }
            let v = match int_operand_of(&arguments[0], zero) {
                Some(v) => v,
                None => {
                    return Err(bad_operands(native, arguments));
                },
            };
            if native == ScalarNative::Subtract_PreInt {
                Value::Int(if v == i32::MIN { v } else { -v })
            } else {
                let byte = v as u8;
                let r = Value::String(char_string(byte as char));
                assert(result_model(r) == scalar_value(native, arguments@));
                r
            }
        },
        ScalarNative::EqualEqual_ObjectObject | ScalarNative::NotEqual_ObjectObject => {
            if arguments.len() != 2 {
                return Err(bad_operands(native, arguments));
            }
            match (object_value(&arguments[0]), object_value(&arguments[1])) {
                (Some(a), Some(b)) => Value::Bool(
                    (a == b) == (native == ScalarNative::EqualEqual_ObjectObject),
                ),
                _ => {
                    return Err(bad_operands(native, arguments));
                },
            }
        },
        ScalarNative::EqualEqual_BoolBool | ScalarNative::NotEqual_BoolBool => {
            if arguments.len() != 2 {
                return Err(bad_operands(native, arguments));
            }
            let (a, b) = truth_pair_of(arguments)?;
            Value::Bool((a == b) == (native == ScalarNative::EqualEqual_BoolBool))
        },
        ScalarNative::XorXor_BoolBool => {
            if arguments.len() != 2 {
                return Err(bad_operands(native, arguments));
            }
            let (a, b) = truth_pair_of(arguments)?;
            Value::Bool(a != b)
        },
        ScalarNative::AndAnd_BoolBool | ScalarNative::OrOr_BoolBool => {
            if arguments.len() != 2 {
                return Err(bad_operands(native, arguments));
            }
            let a = arguments[0].truthy()?;
            if native == ScalarNative::AndAnd_BoolBool {
                if !a {
                    Value::Bool(false)
                } else {
                    Value::Bool(arguments[1].truthy()?)
                }
            } else {
                if a {
                    Value::Bool(true)
                } else {
                    Value::Bool(arguments[1].truthy()?)
                }
            }
        },
        ScalarNative::Not_PreBool => {
            if arguments.len() != 1 {
                return Err(bad_operands(native, arguments));
            }
            Value::Bool(!arguments[0].truthy()?)
        },
        ScalarNative::Concat_StrStr | ScalarNative::At_StrStr | ScalarNative::EqualEqual_StrStr
        | ScalarNative::NotEqual_StrStr | ScalarNative::ComplementEqual_StrStr
        | ScalarNative::InStr => {
            let (a, b) = match text_pair_of(arguments) {
                Some(p) => p,
                None => {
                    return Err(bad_operands(native, arguments));
                },
            };
            let v = match native {
                ScalarNative::Concat_StrStr => Value::String(a.clone().concat(b.as_str())),
                ScalarNative::At_StrStr => {
                    let space = " ";
                    proof {
                        reveal_strlit(" ");
                        assert(space@ =~= seq![' ']);
                    }
                    let joined = a.clone().concat(space).concat(b.as_str());
                    assert(joined@ =~= a@ + seq![' '] + b@);
                    Value::String(joined)
                },
                ScalarNative::NotEqual_StrStr => Value::Bool(
                    !eq_ignore_ascii_case(a.as_str(), b.as_str()),
                ),
                ScalarNative::InStr => Value::Int(find_chars(a.as_str(), b.as_str())),
                _ => Value::Bool(eq_ignore_ascii_case(a.as_str(), b.as_str())),
            };
            assert(result_model(v) == scalar_value(native, arguments@));
            v
        },
        ScalarNative::Len | ScalarNative::Caps | ScalarNative::Asc => {
            if arguments.len() != 1 {
                return Err(bad_operands(native, arguments));
            }
            let t = match &arguments[0] {
                Value::String(t) => t,
                _ => {
                    return Err(bad_operands(native, arguments));
                },
            };
            let v = match native {
                ScalarNative::Len => Value::Int(t.as_str().unicode_len() as i32),
                ScalarNative::Caps => Value::String(to_uppercase(t.as_str())),
                _ => {
                    let bytes = t.as_str().as_bytes();
                    Value::Int(if bytes.len() > 0 { bytes[0] as i32 } else { 0 })
                },
            };
            assert(result_model(v) == scalar_value(native, arguments@));
            v
        },
        ScalarNative::Mid | ScalarNative::Left | ScalarNative::Right => {
            if arguments.len() != 2 && !(arguments.len() == 3 && native == ScalarNative::Mid) {
                return Err(bad_operands(native, arguments));
            }
            let (t, n) = match (&arguments[0], &arguments[1]) {
                (Value::String(t), Value::Int(n)) => (t, *n),
                _ => {
                    return Err(bad_operands(native, arguments));
                },
            };
            match native {
                ScalarNative::Left => Value::String(take_text(t.as_str(), count(n))),
                ScalarNative::Right => {
                    let len = t.as_str().unicode_len();
                    let keep = count(n);
                    let skip = if len >= keep { len - keep } else { 0 };
                    Value::String(skip_text(t.as_str(), skip))
                },
                _ => {
                    let rest = skip_text(t.as_str(), count(n));
                    if arguments.len() == 2 {
                        Value::String(rest)
                    } else {
                        match &arguments[2] {
                            Value::Null => Value::String(rest),
                            Value::Int(length) => Value::String(take_text(rest.as_str(), count(*length))),
                            _ => {
                                return Err(bad_operands(native, arguments));
                            },
                        }
                    }
                },
            }
        },
        ScalarNative::Add_RotatorRotator | ScalarNative::Subtract_RotatorRotator => {
            if arguments.len() != 2 {
                return Err(bad_operands(native, arguments));
            }
            match (&arguments[0], &arguments[1]) {
                (Value::Rotator(a), Value::Rotator(b)) => {
                    let v = if native == ScalarNative::Add_RotatorRotator {
                        Value::Rotator([a[0].wrapping_add(b[0]), a[1].wrapping_add(b[1]), a[2].wrapping_add(b[2])])
                    } else {
                        Value::Rotator([a[0].wrapping_sub(b[0]), a[1].wrapping_sub(b[1]), a[2].wrapping_sub(b[2])])
                    };
                    assert(result_model(v) == scalar_value(native, arguments@));
                    v
                },
                _ => {
                    return Err(bad_operands(native, arguments));
                },
            }
        },
        _ => {
            return Err(bad_operands(native, arguments));
        },
    };
    Ok(ScalarOutcome::Value(value))
}

/// Two integer operands.
pub open spec fn two_ints(a: i32, b: i32) -> Seq<Value> {
    seq![Value::Int(a), Value::Int(b)]
}

proof fn lemma_two_ints(a: i32, b: i32)
    ensures
        two_ints(a, b).len() == 2,
        !two_ints(a, b).contains(Value::Null),
        two_ints(a, b)[0] == Value::Int(a),
        two_ints(a, b)[1] == Value::Int(b),
{
    let s = two_ints(a, b);
    assert forall|i: int| 0 <= i < s.len() implies s[i] != Value::Null by {
        if i == 0 {
            assert(s[0] == Value::Int(a));
        } else {
            assert(s[1] == Value::Int(b));
        }
    }
}

/// The integer comparisons: `Less`, `Greater`, `LessEqual`,
/// `GreaterEqual`, `EqualEqual` and `NotEqual` (natives 0x96 to 0x9b)
/// answer whether their two integers are in that relation; in particular
/// nothing is greater than itself, and `a > b` exactly when `b < a`.
pub proof fn lemma_int_comparisons(a: i32, b: i32)
    ensures
        native_of(0x96u16) == Some(ScalarNative::Less_IntInt),
        native_of(0x97u16) == Some(ScalarNative::Greater_IntInt),
        native_of(0x98u16) == Some(ScalarNative::LessEqual_IntInt),
        native_of(0x99u16) == Some(ScalarNative::GreaterEqual_IntInt),
        native_of(0x9au16) == Some(ScalarNative::EqualEqual_IntInt),
        native_of(0x9bu16) == Some(ScalarNative::NotEqual_IntInt),
        !float_native(ScalarNative::Less_IntInt) && !float_native(ScalarNative::Greater_IntInt)
            && !float_native(ScalarNative::LessEqual_IntInt) && !float_native(ScalarNative::GreaterEqual_IntInt)
            && !float_native(ScalarNative::EqualEqual_IntInt) && !float_native(ScalarNative::NotEqual_IntInt),
        scalar_value(ScalarNative::Less_IntInt, two_ints(a, b)) == Some(ScalarModel::Bool(a < b)),
        scalar_value(ScalarNative::Greater_IntInt, two_ints(a, b)) == Some(ScalarModel::Bool(a > b)),
        scalar_value(ScalarNative::LessEqual_IntInt, two_ints(a, b)) == Some(ScalarModel::Bool(a <= b)),
        scalar_value(ScalarNative::GreaterEqual_IntInt, two_ints(a, b)) == Some(ScalarModel::Bool(a >= b)),
        scalar_value(ScalarNative::EqualEqual_IntInt, two_ints(a, b)) == Some(ScalarModel::Bool(a == b)),
        scalar_value(ScalarNative::NotEqual_IntInt, two_ints(a, b)) == Some(ScalarModel::Bool(a != b)),
        scalar_value(ScalarNative::Greater_IntInt, two_ints(a, a)) == Some(ScalarModel::Bool(false)),
        scalar_value(ScalarNative::Less_IntInt, two_ints(a, a)) == Some(ScalarModel::Bool(false)),
        scalar_value(ScalarNative::Greater_IntInt, two_ints(a, b)) == scalar_value(
            ScalarNative::Less_IntInt,
            two_ints(b, a),
        ),
        scalar_value(ScalarNative::GreaterEqual_IntInt, two_ints(a, b)) == scalar_value(
            ScalarNative::LessEqual_IntInt,
            two_ints(b, a),
        ),
        scalar_value(ScalarNative::LessEqual_IntInt, two_ints(a, b)) == Some(ScalarModel::Bool(
            scalar_value(ScalarNative::Greater_IntInt, two_ints(a, b)) == Some(ScalarModel::Bool(false)),
        )),
{
    lemma_two_ints(a, b);
    lemma_two_ints(b, a);
    lemma_two_ints(a, a);
}

/// Integer arithmetic: sums, differences and products are exact when they
/// fit; negation flips the sign (but of the smallest integer); `Min` and
/// `Max` are one of their operands and below or above both; `Clamp` stays
/// within its bounds and leaves a value inside them as it is.
pub proof fn lemma_int_arithmetic(a: i32, b: i32, c: i32)
    ensures
        native_of(0x92u16) == Some(ScalarNative::Add_IntInt),
        native_of(0x93u16) == Some(ScalarNative::Subtract_IntInt),
        native_of(0x90u16) == Some(ScalarNative::Multiply_IntInt),
        native_of(0x8fu16) == Some(ScalarNative::Subtract_PreInt),
        i32::MIN <= a + b <= i32::MAX ==> (scalar_value(ScalarNative::Add_IntInt, two_ints(a, b)) matches Some(
            ScalarModel::Int(r),
        ) && r == a + b),
        i32::MIN <= a - b <= i32::MAX ==> (scalar_value(ScalarNative::Subtract_IntInt, two_ints(a, b)) matches Some(
            ScalarModel::Int(r),
        ) && r == a - b),
        i32::MIN <= a * b <= i32::MAX ==> (scalar_value(ScalarNative::Multiply_IntInt, two_ints(a, b)) matches Some(
            ScalarModel::Int(r),
        ) && r == a * b),
        a != i32::MIN ==> (scalar_value(ScalarNative::Subtract_PreInt, seq![Value::Int(a)]) matches Some(
            ScalarModel::Int(r),
        ) && r + a == 0),
        scalar_value(ScalarNative::Min, two_ints(a, b)) matches Some(ScalarModel::Int(r)) && r <= a && r <= b && (r
            == a || r == b),
        scalar_value(ScalarNative::Max, two_ints(a, b)) matches Some(ScalarModel::Int(r)) && r >= a && r >= b && (r
            == a || r == b),
        b <= c ==> (scalar_value(ScalarNative::Clamp, seq![Value::Int(a), Value::Int(b), Value::Int(c)]) matches Some(
            ScalarModel::Int(r),
        ) && b <= r <= c && (b <= a <= c ==> r == a) && (a < b ==> r == b) && (a > c ==> r == c)),
{
    lemma_two_ints(a, b);
    let one = seq![Value::Int(a)];
    assert(one[0] == Value::Int(a));
    assert(!one.contains(Value::Null)) by {
        assert forall|i: int| 0 <= i < one.len() implies one[i] != Value::Null by {}
    }
    let three = seq![Value::Int(a), Value::Int(b), Value::Int(c)];
    assert(three[0] == Value::Int(a) && three[1] == Value::Int(b) && three[2] == Value::Int(c));
    assert(!three.contains(Value::Null)) by {
        assert forall|i: int| 0 <= i < three.len() implies three[i] != Value::Null by {}
    }
}

/// The boolean operators on two booleans: `&&`, `||` and `^^` are
/// conjunction, disjunction and exclusive or, `!` is negation, and `==`
/// and `!=` compare.
pub proof fn lemma_bool_operators(a: bool, b: bool)
    ensures
        scalar_value(ScalarNative::AndAnd_BoolBool, seq![Value::Bool(a), Value::Bool(b)]) == Some(ScalarModel::Bool(a && b)),
        scalar_value(ScalarNative::OrOr_BoolBool, seq![Value::Bool(a), Value::Bool(b)]) == Some(ScalarModel::Bool(a || b)),
        scalar_value(ScalarNative::XorXor_BoolBool, seq![Value::Bool(a), Value::Bool(b)]) == Some(ScalarModel::Bool(a != b)),
        scalar_value(ScalarNative::EqualEqual_BoolBool, seq![Value::Bool(a), Value::Bool(b)]) == Some(ScalarModel::Bool(a == b)),
        scalar_value(ScalarNative::NotEqual_BoolBool, seq![Value::Bool(a), Value::Bool(b)]) == Some(ScalarModel::Bool(a != b)),
        scalar_value(ScalarNative::Not_PreBool, seq![Value::Bool(a)]) == Some(ScalarModel::Bool(!a)),
{
    let two = seq![Value::Bool(a), Value::Bool(b)];
    assert(two[0] == Value::Bool(a) && two[1] == Value::Bool(b));
    let one = seq![Value::Bool(a)];
    assert(one[0] == Value::Bool(a));
}

proof fn lemma_find_from(s: Seq<char>, needle: Seq<char>, i: int)
    requires
        0 <= i,
    ensures
        find_from(s, needle, i) == -1 || (i <= find_from(s, needle, i) && find_from(s, needle, i) + needle.len()
            <= s.len() && s.subrange(find_from(s, needle, i), find_from(s, needle, i) + needle.len()) == needle),
        forall|j: int|
            i <= j && j + needle.len() <= s.len() && (find_from(s, needle, i) == -1 || j < find_from(s, needle, i))
                ==> #[trigger] s.subrange(j, j + needle.len()) != needle,
    decreases s.len() + 1 - i,
{
    if i + needle.len() <= s.len() && s.subrange(i, i + needle.len()) != needle {
        lemma_find_from(s, needle, i + 1);
    }
}

/// The string natives: `$` joins two strings, `@` joins them with a space
/// between; `Len` counts characters; `Left` and `Right` give the first and
/// last characters, as many as asked for and the string has; `Mid` gives
/// the characters from a position on, as many as asked for; `InStr` gives
/// the first position where the second string occurs in the first, or -1
/// when it occurs nowhere.
pub proof fn lemma_string_natives(a: String, b: String, n: i32, m: i32)
    ensures
        ({
            let s = a@;
            let t = b@;
            let left = if count_of(n) <= s.len() { count_of(n) as int } else { s.len() as int };
            &&& scalar_value(ScalarNative::Concat_StrStr, seq![Value::String(a), Value::String(b)]) matches Some(
                ScalarModel::Text(r),
            ) && r.len() == s.len() + t.len() && r.subrange(0, s.len() as int) == s && r.subrange(
                s.len() as int,
                r.len() as int,
            ) == t
            &&& scalar_value(ScalarNative::At_StrStr, seq![Value::String(a), Value::String(b)]) matches Some(
                ScalarModel::Text(r),
            ) && r.len() == s.len() + t.len() + 1 && r.subrange(0, s.len() as int) == s && r[s.len() as int]
                == ' ' && r.subrange(s.len() + 1int, r.len() as int) == t
            &&& s.len() <= i32::MAX ==> (scalar_value(ScalarNative::Len, seq![Value::String(a)]) matches Some(
                ScalarModel::Int(k),
            ) && k == s.len())
            &&& scalar_value(ScalarNative::Left, seq![Value::String(a), Value::Int(n)]) matches Some(
                ScalarModel::Text(r),
            ) && r.len() == left && r == s.subrange(0, left)
            &&& scalar_value(ScalarNative::Right, seq![Value::String(a), Value::Int(n)]) matches Some(
                ScalarModel::Text(r),
            ) && r.len() == left && r == s.subrange(s.len() - left, s.len() as int)
            &&& scalar_value(ScalarNative::Mid, seq![Value::String(a), Value::Int(n)]) matches Some(
                ScalarModel::Text(r),
            ) && r == s.subrange(left, s.len() as int)
            &&& scalar_value(ScalarNative::Mid, seq![Value::String(a), Value::Int(n), Value::Int(m)]) matches Some(
                ScalarModel::Text(r),
            ) && r.len() <= count_of(m) && r == s.subrange(left, left + r.len()) && (r.len() == count_of(m)
                || left + r.len() == s.len())
            &&& s.len() <= i32::MAX ==> (scalar_value(ScalarNative::InStr, seq![Value::String(a), Value::String(b)])
                matches Some(ScalarModel::Int(k)) && (k == -1 || (0 <= k && k + t.len() <= s.len() && s.subrange(
                k as int,
                k + t.len(),
            ) == t)) && forall|j: int|
                0 <= j && j + t.len() <= s.len() && (k == -1 || j < k) ==> #[trigger] s.subrange(j, j + t.len())
                    != t)
        }),
{
    let s = a@;
    let t = b@;
    let two = seq![Value::String(a), Value::String(b)];
    assert(two[0] == Value::String(a) && two[1] == Value::String(b));
    let one = seq![Value::String(a)];
    assert(one[0] == Value::String(a));
    let left_args = seq![Value::String(a), Value::Int(n)];
    assert(left_args[0] == Value::String(a) && left_args[1] == Value::Int(n));
    let mid_args = seq![Value::String(a), Value::Int(n), Value::Int(m)];
    assert(mid_args[0] == Value::String(a) && mid_args[1] == Value::Int(n) && mid_args[2] == Value::Int(m));
    lemma_find_from(s, t, 0);
    let joined = s + t;
    assert(joined.subrange(0, s.len() as int) =~= s);
    assert(joined.subrange(s.len() as int, joined.len() as int) =~= t);
    let spaced = s + seq![' '] + t;
    assert(spaced.subrange(0, s.len() as int) =~= s);
    assert(spaced.subrange(s.len() + 1int, spaced.len() as int) =~= t);
    assert(spaced[s.len() as int] == ' ');
    let left = if count_of(n) <= s.len() { count_of(n) as int } else { s.len() as int };
    assert(take_chars(s, count_of(n)) =~= s.subrange(0, left));
    let skip = if s.len() >= count_of(n) { (s.len() - count_of(n)) as nat } else { 0 };
    assert(skip_chars(s, skip) =~= s.subrange(s.len() - left, s.len() as int));
    let rest = skip_chars(s, count_of(n));
    assert(rest =~= s.subrange(left, s.len() as int));
    let part = take_chars(rest, count_of(m));
    assert(part =~= s.subrange(left, left + part.len()));
}

/// Integer division truncates toward zero: the remainder it leaves is
/// smaller than the divisor and has the sign of the dividend (or is 0).
/// Division by zero, and the one quotient that does not fit, give no value.
pub proof fn lemma_int_division(a: i32, b: i32)
    ensures
        native_of(0x91u16) == Some(ScalarNative::Divide_IntInt),
        b == 0 || (a == i32::MIN && b == -1) ==> scalar_value(ScalarNative::Divide_IntInt, two_ints(a, b)) is None,
        b != 0 && !(a == i32::MIN && b == -1) ==> (scalar_value(ScalarNative::Divide_IntInt, two_ints(a, b)) matches Some(
            ScalarModel::Int(q),
        ) && abs(a - q * b) < abs(b as int) && (a - q * b == 0 || ((a - q * b) < 0) == (a < 0))),
{
    lemma_two_ints(a, b);
    if b != 0 && !(a == i32::MIN && b == -1) {
        let x = abs(a as int);
        let y = abs(b as int);
        let big_q = x / y;
        let big_r = x % y;
        vstd::arithmetic::div_mod::lemma_fundamental_div_mod(x, y);
        vstd::arithmetic::div_mod::lemma_mod_bound(x, y);
        assert(x == y * big_q + big_r);
        assert(0 <= big_q <= x) by (nonlinear_arith)
            requires
                x == y * big_q + big_r,
                0 <= big_r < y,
                1 <= y,
                0 <= x,
        ;
        if y >= 2 {
            assert(big_q <= x / 2) by (nonlinear_arith)
                requires
                    x == y * big_q + big_r,
                    0 <= big_r < y,
                    2 <= y,
                    0 <= x,
            ;
        }
        let q = quotient(a, b);
        assert(i32::MIN <= q <= i32::MAX);
        assert((q as i32) as int == q);
        if a >= 0 {
            if b > 0 {
                assert(a - q * b == big_r) by (nonlinear_arith)
                    requires q == big_q, a == x, b == y, x == y * big_q + big_r;
            } else {
                assert(a - q * b == big_r) by (nonlinear_arith)
                    requires q == -big_q, a == x, b == -y, x == y * big_q + big_r;
            }
        } else {
            if b > 0 {
                assert(a - q * b == -big_r) by (nonlinear_arith)
                    requires q == -big_q, a == -x, b == y, x == y * big_q + big_r;
            } else {
                assert(a - q * b == -big_r) by (nonlinear_arith)
                    requires q == big_q, a == -x, b == -y, x == y * big_q + big_r;
            }
        }
    }
}

/// Objects compare by handle, `None` being the null handle 0: an object
/// equals itself and `==` is the negation of `!=`.
pub proof fn lemma_object_comparisons(h: i32, k: i32)
    ensures
        scalar_value(ScalarNative::EqualEqual_ObjectObject, seq![Value::Object(h), Value::Object(k)]) == Some(
            ScalarModel::Bool(h == k),
        ),
        scalar_value(ScalarNative::NotEqual_ObjectObject, seq![Value::Object(h), Value::Object(k)]) == Some(
            ScalarModel::Bool(h != k),
        ),
        scalar_value(ScalarNative::EqualEqual_ObjectObject, seq![Value::Null, Value::Object(k)]) == Some(
            ScalarModel::Bool(k == 0),
        ),
{
    let two = seq![Value::Object(h), Value::Object(k)];
    assert(two[0] == Value::Object(h) && two[1] == Value::Object(k));
    let null = seq![Value::Null, Value::Object(k)];
    assert(null[0] == Value::Null && null[1] == Value::Object(k));
}

/// Strings compare ignoring ASCII case: a string equals itself, equality is
/// symmetric, strings of different lengths differ, `!=` is the negation of
/// `==`, and `~=` is `==`.
pub proof fn lemma_string_comparisons(a: String, b: String)
    ensures
        scalar_value(ScalarNative::EqualEqual_StrStr, seq![Value::String(a), Value::String(a)]) == Some(
            ScalarModel::Bool(true),
        ),
        scalar_value(ScalarNative::EqualEqual_StrStr, seq![Value::String(a), Value::String(b)]) == scalar_value(
            ScalarNative::EqualEqual_StrStr,
            seq![Value::String(b), Value::String(a)],
        ),
        a@.len() != b@.len() ==> scalar_value(ScalarNative::EqualEqual_StrStr, seq![Value::String(a), Value::String(b)])
            == Some(ScalarModel::Bool(false)),
        scalar_value(ScalarNative::EqualEqual_StrStr, seq![Value::String(a), Value::String(b)]) matches Some(
            ScalarModel::Bool(e),
        ) && scalar_value(ScalarNative::NotEqual_StrStr, seq![Value::String(a), Value::String(b)]) == Some(
            ScalarModel::Bool(!e),
        ) && scalar_value(ScalarNative::ComplementEqual_StrStr, seq![Value::String(a), Value::String(b)]) == Some(
            ScalarModel::Bool(e),
        ),
{
    let ab = seq![Value::String(a), Value::String(b)];
    assert(ab[0] == Value::String(a) && ab[1] == Value::String(b));
    let ba = seq![Value::String(b), Value::String(a)];
    assert(ba[0] == Value::String(b) && ba[1] == Value::String(a));
    let aa = seq![Value::String(a), Value::String(a)];
    assert(aa[0] == Value::String(a) && aa[1] == Value::String(a));
    if a@.len() != b@.len() {
        assert(lower(a@).len() != lower(b@).len());
    }
}

} // verus!
