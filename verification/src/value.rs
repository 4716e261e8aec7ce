//! Script values and object identities as the runtime holds them.
use vstd::prelude::*;

verus! {

/// An object: the package that exports it and its export index. Actors
/// spawned at run time live in the package `<runtime>`.
#[derive(Debug, PartialEq, Eq)]
pub struct ObjectId {
    pub package: String,
    pub export_index: usize,
}

/// Mathematical value of an `ObjectId`.
pub struct ObjectIdModel {
    pub package: Seq<char>,
    pub export_index: usize,
}

impl View for ObjectId {
    type V = ObjectIdModel;

    open spec fn view(&self) -> ObjectIdModel {
        ObjectIdModel { package: self.package@, export_index: self.export_index }
    }
}

impl ObjectId {
    /// A copy of the identity.
    pub fn duplicate(&self) -> (r: ObjectId)
        ensures
            r@ == self@,
    {
        ObjectId { package: self.package.clone(), export_index: self.export_index }
    }

    /// Whether two identities name the same object.
    pub fn same(&self, other: &ObjectId) -> (r: bool)
        ensures
            r == (self@ == other@),
    {
        self.export_index == other.export_index && self.package == other.package
    }
}

/// The identity of an actor spawned at run time.
pub fn runtime_actor_id(actor: usize) -> (r: ObjectId)
    ensures
        r@.package == "<runtime>"@,
        r@.export_index == actor,
{
    ObjectId { package: "<runtime>".to_owned(), export_index: actor }
}

/// A script value. Single-precision numbers, alone or in vectors, are held
/// as their IEEE-754 bits; `Null` is the script's `None`.
#[derive(Debug, PartialEq)]
pub enum Value {
    Null,
    Byte(u8),
    Int(i32),
    Float(u32),
    Bool(bool),
    String(String),
    Name(i32),
    NameText(String),
    Object(i32),
    Vector([u32; 3]),
    Rotator([i32; 3]),
    Struct(Vec<(String, Value)>),
    Array(Vec<Value>),
}

/// The truth of a value in a boolean context: a boolean is itself, `None`
/// is false; other values have none.
pub open spec fn truth_of(v: Value) -> Option<bool> {
    match v {
        Value::Bool(b) => Some(b),
        Value::Null => Some(false),
        _ => None,
    }
}

/// The kind of a value, as messages name it.
pub open spec fn kind_name(v: Value) -> Seq<char> {
    match v {
        Value::Null => "none"@,
        Value::Byte(_) => "byte"@,
        Value::Int(_) => "int"@,
        Value::Float(_) => "float"@,
        Value::Bool(_) => "bool"@,
        Value::String(_) => "string"@,
        Value::Name(_) => "name"@,
        Value::NameText(_) => "name"@,
        Value::Object(_) => "object"@,
        Value::Vector(_) => "vector"@,
        Value::Rotator(_) => "rotator"@,
        Value::Struct(_) => "struct"@,
        Value::Array(_) => "array"@,
    }
}

impl Value {
    /// The kind of the value, as messages name it.
    pub fn kind(&self) -> (r: &'static str)
        ensures
            r@ == kind_name(*self),
    {
        match self {
            Value::Null => "none",
            Value::Byte(_) => "byte",
            Value::Int(_) => "int",
            Value::Float(_) => "float",
            Value::Bool(_) => "bool",
            Value::String(_) => "string",
            Value::Name(_) => "name",
            Value::NameText(_) => "name",
            Value::Object(_) => "object",
            Value::Vector(_) => "vector",
            Value::Rotator(_) => "rotator",
            Value::Struct(_) => "struct",
            Value::Array(_) => "array",
        }
    }

    /// The truth of the value in a boolean context.
    pub fn truthy(&self) -> (r: Result<bool, String>)
        ensures
            match r {
                Ok(b) => truth_of(*self) == Some(b),
                Err(m) => truth_of(*self) is None && m@ == "value is not a boolean"@,
            },
    {
        match self {
            Value::Bool(b) => Ok(*b),
            Value::Null => Ok(false),
            _ => Err("value is not a boolean".to_owned()),
        }
    }
}

/// A property value as an instance stores it.
#[derive(Debug, PartialEq)]
pub enum StoredValue {
    Value(Value),
    Array(Vec<StoredValue>),
    Name(String),
    Object(Option<ObjectId>),
    UnresolvedObject(String),
    SelfObject,
}

} // verus!
